//! The statement groups of a migration script.
//!
//! A script is read line by line. The lines gather in a group, each followed
//! by a line feed; a line that holds the split directive closes the group it
//! has just joined, and what is left after the last line is the last group.

use vstd::prelude::*;
use crate::directive::SqlDirective;
use crate::text::{chars_of, string_of};

verus! {

/// Where the first line of `text` ends: the position of its first line feed,
/// or the length of `text` where it has none.
pub open spec fn first_break(text: Seq<char>) -> int
    decreases text.len(),
{
    if text.len() == 0 || text[0] == '\n' {
        0
    } else {
        1 + first_break(text.drop_first())
    }
}

/// `line` without the carriage return at its end, if it has one.
pub open spec fn without_return(line: Seq<char>) -> Seq<char> {
    if line.len() > 0 && line.last() == '\r' {
        line.drop_last()
    } else {
        line
    }
}

/// The lines of `text`. A line ends at a line feed, or at a carriage return
/// and a line feed, and holds neither; what follows the last line feed is a
/// line of its own unless it is empty.
pub open spec fn lines_of(text: Seq<char>) -> Seq<Seq<char>>
    decreases text.len(),
{
    if text.len() == 0 {
        Seq::empty()
    } else {
        let k = first_break(text);
        if 0 <= k < text.len() {
            seq![without_return(text.take(k))] + lines_of(text.skip(k + 1))
        } else {
            seq![text]
        }
    }
}

/// The line at `at` closes its group.
pub open spec fn splits_at(directives: Seq<Option<SqlDirective>>, at: int) -> bool {
    0 <= at < directives.len() && directives[at] == Some(SqlDirective::Split)
}

/// The groups that the lines from `at` on fall into, `buffer` being what the
/// open group holds already.
pub open spec fn groups_from(
    lines: Seq<Seq<char>>,
    directives: Seq<Option<SqlDirective>>,
    at: int,
    buffer: Seq<char>,
) -> Seq<Seq<char>>
    decreases lines.len() - at,
{
    if at < 0 || at >= lines.len() {
        seq![buffer]
    } else {
        let grown = buffer + lines[at] + seq!['\n'];
        if splits_at(directives, at) {
            seq![grown] + groups_from(lines, directives, at + 1, Seq::empty())
        } else {
            groups_from(lines, directives, at + 1, grown)
        }
    }
}

/// The directive that each line holds.
pub open spec fn directives_of(lines: Seq<Seq<char>>) -> Seq<Option<SqlDirective>> {
    Seq::new(lines.len(), |k: int| SqlDirective::of_line(lines[k]))
}

/// The statement groups of a script.
pub open spec fn statement_groups(text: Seq<char>) -> Seq<Seq<char>> {
    groups_from(lines_of(text), directives_of(lines_of(text)), 0, Seq::empty())
}

/// The first line of a text ends where its first line feed stands.
pub proof fn lemma_first_break(text: Seq<char>, k: int)
    requires
        0 <= k <= text.len(),
        forall|j: int| 0 <= j < k ==> text[j] != '\n',
        k == text.len() || text[k] == '\n',
    ensures
        first_break(text) == k,
    decreases k,
{
    if k > 0 {
        let rest = text.drop_first();
        assert forall|j: int| 0 <= j < k - 1 implies rest[j] != '\n' by {
            assert(rest[j] == text[j + 1]);
        }
        lemma_first_break(rest, k - 1);
    }
}

/// The lines of `text`, without what ends them.
pub fn sql_lines(text: &str) -> (r: Vec<String>)
    ensures
        r.deep_view() == lines_of(text@),
{
    let chars = chars_of(text);
    let mut lines: Vec<String> = Vec::new();
    let mut start: usize = 0;
    let mut i: usize = 0;
    assert(chars@.skip(0) =~= chars@);
    assert(lines.deep_view() + lines_of(chars@) =~= lines_of(chars@));
    while i < chars.len()
        invariant
            chars@ == text@,
            start <= i <= chars@.len(),
            forall|j: int| start <= j < i ==> chars@[j] != '\n',
            lines_of(chars@) == lines.deep_view() + lines_of(chars@.skip(start as int)),
        decreases chars@.len() - i,
    {
        if chars[i] == '\n' {
            let end = if i > start && chars[i - 1] == '\r' {
                i - 1
            } else {
                i
            };
            let line = string_of(&chars, start, end);
            proof {
                let rest = chars@.skip(start as int);
                let k = i - start;
                assert forall|j: int| 0 <= j < k implies rest[j] != '\n' by {
                    assert(rest[j] == chars@[start + j]);
                }
                lemma_first_break(rest, k);
                assert(rest.take(k) =~= chars@.subrange(start as int, i as int));
                assert(without_return(rest.take(k)) =~= line@);
                assert(rest.skip(k + 1) =~= chars@.skip(i + 1));
                assert(lines.deep_view().push(line@) + lines_of(chars@.skip(i + 1))
                    =~= lines.deep_view() + lines_of(rest));
            }
            let ghost before = lines.deep_view();
            lines.push(line);
            assert(lines.deep_view() =~= before.push(line@));
            start = i + 1;
        }
        i += 1;
    }
    if start < chars.len() {
        let line = string_of(&chars, start, chars.len());
        proof {
            let rest = chars@.skip(start as int);
            assert forall|j: int| 0 <= j < rest.len() implies rest[j] != '\n' by {
                assert(rest[j] == chars@[start + j]);
            }
            lemma_first_break(rest, rest.len() as int);
            assert(rest =~= line@);
            assert(lines.deep_view().push(line@) =~= lines.deep_view() + lines_of(rest));
        }
        let ghost before = lines.deep_view();
        lines.push(line);
        assert(lines.deep_view() =~= before.push(line@));
    } else {
        assert(lines.deep_view() + lines_of(chars@.skip(start as int)) =~= lines.deep_view());
    }
    lines
}

/// Whether the line at `at` closes its group.
fn closes_group(directives: &Vec<Option<SqlDirective>>, at: usize) -> (r: bool)
    ensures
        r == splits_at(directives@, at as int),
{
    if at < directives.len() {
        match directives[at] {
            Some(SqlDirective::Split) => {
                assert(directives@[at as int] == Some(SqlDirective::Split));
                true
            },
            None => false,
        }
    } else {
        false
    }
}

/// The groups that `lines` fall into, given the directive that each line
/// holds; a line that `directives` does not reach holds none.
pub fn group_lines(lines: &Vec<String>, directives: &Vec<Option<SqlDirective>>) -> (r: Vec<String>)
    ensures
        r.deep_view() == groups_from(lines.deep_view(), directives@, 0, Seq::empty()),
{
    let mut groups: Vec<String> = Vec::new();
    let mut buffer = String::new();
    let mut i: usize = 0;
    let ghost whole = groups_from(lines.deep_view(), directives@, 0, Seq::empty());
    assert(groups.deep_view() + whole =~= whole);
    while i < lines.len()
        invariant
            i <= lines@.len(),
            whole == groups.deep_view() + groups_from(
                lines.deep_view(),
                directives@,
                i as int,
                buffer@,
            ),
        decreases lines@.len() - i,
    {
        let ghost held = buffer@;
        let ghost before = groups.deep_view();
        buffer.append(lines[i].as_str());
        buffer.append("\n");
        proof {
            reveal_strlit("\n");
            assert("\n"@ =~= seq!['\n']);
            assert(buffer@ =~= held + lines.deep_view()[i as int] + seq!['\n']);
        }
        let closes = closes_group(directives, i);
        let ghost grown = buffer@;
        assert(closes == splits_at(directives@, i as int));
        assert(groups_from(lines.deep_view(), directives@, i as int, held) == if closes {
            seq![grown] + groups_from(lines.deep_view(), directives@, i + 1, Seq::empty())
        } else {
            groups_from(lines.deep_view(), directives@, i + 1, grown)
        });
        if closes {
            groups.push(buffer);
            buffer = String::new();
            proof {
                assert(groups.deep_view() =~= before.push(grown));
                assert(before.push(grown) + groups_from(
                    lines.deep_view(),
                    directives@,
                    i + 1,
                    Seq::empty(),
                ) =~= before + (seq![grown] + groups_from(
                    lines.deep_view(),
                    directives@,
                    i + 1,
                    Seq::empty(),
                )));
            }
        }
        i += 1;
    }
    let ghost before = groups.deep_view();
    let ghost last = buffer@;
    groups.push(buffer);
    assert(groups.deep_view() =~= before + seq![last]);
    groups
}

/// The statement groups of the script `sql`, in the order in which they are to
/// be run.
pub fn split_statements(sql: &str) -> (r: Vec<String>)
    ensures
        r.deep_view() == statement_groups(sql@),
{
    let lines = sql_lines(sql);
    let mut directives: Vec<Option<SqlDirective>> = Vec::new();
    let mut i: usize = 0;
    while i < lines.len()
        invariant
            i <= lines@.len(),
            directives@ == directives_of(lines.deep_view()).take(i as int),
        decreases lines@.len() - i,
    {
        let found = SqlDirective::match_str(lines[i].as_str());
        directives.push(found);
        i += 1;
        assert(directives@ =~= directives_of(lines.deep_view()).take(i as int));
    }
    assert(directives@ =~= directives_of(lines.deep_view()));
    group_lines(&lines, &directives)
}

/// The lines put back together, each followed by a line feed.
pub open spec fn joined(lines: Seq<Seq<char>>) -> Seq<char>
    decreases lines.len(),
{
    if lines.len() == 0 {
        Seq::empty()
    } else {
        lines[0] + seq!['\n'] + joined(lines.drop_first())
    }
}

/// Every line of `text` ends in a line feed, and in a line feed alone.
pub open spec fn feeds_end_lines(text: Seq<char>) -> bool {
    &&& text.len() > 0 ==> text.last() == '\n'
    &&& forall|i: int| 0 < i < text.len() && (#[trigger] text[i]) == '\n' ==> text[i - 1] != '\r'
}

/// Where the first line ends there is a line feed or the end of the text, and
/// no line feed stands before it.
pub proof fn lemma_first_break_found(text: Seq<char>)
    ensures
        0 <= first_break(text) <= text.len(),
        forall|j: int| 0 <= j < first_break(text) ==> text[j] != '\n',
        first_break(text) == text.len() || text[first_break(text)] == '\n',
    decreases text.len(),
{
    if text.len() > 0 && text[0] != '\n' {
        let rest = text.drop_first();
        lemma_first_break_found(rest);
        assert forall|j: int| 0 <= j < first_break(text) implies text[j] != '\n' by {
            if j > 0 {
                assert(text[j] == rest[j - 1]);
            }
        }
        if first_break(rest) < rest.len() {
            assert(text[first_break(text)] == rest[first_break(rest)]);
        }
    }
}

/// There is always a last group, if only an empty one.
pub proof fn lemma_groups_not_empty(
    lines: Seq<Seq<char>>,
    directives: Seq<Option<SqlDirective>>,
    at: int,
    buffer: Seq<char>,
)
    ensures
        groups_from(lines, directives, at, buffer).len() >= 1,
    decreases lines.len() - at,
{
    if 0 <= at < lines.len() {
        let grown = buffer + lines[at] + seq!['\n'];
        if splits_at(directives, at) {
            lemma_groups_not_empty(lines, directives, at + 1, Seq::empty());
        } else {
            lemma_groups_not_empty(lines, directives, at + 1, grown);
        }
    }
}

/// Grouping loses nothing and adds nothing: the groups, read one after the
/// other, are what the open group held followed by the lines still to come.
pub proof fn lemma_groups_keep_text(
    lines: Seq<Seq<char>>,
    directives: Seq<Option<SqlDirective>>,
    at: int,
    buffer: Seq<char>,
)
    requires
        0 <= at <= lines.len(),
    ensures
        groups_from(lines, directives, at, buffer).flatten() == buffer + joined(lines.skip(at)),
    decreases lines.len() - at,
{
    let groups = groups_from(lines, directives, at, buffer);
    if at >= lines.len() {
        groups.lemma_flatten_one_element();
        assert(lines.skip(at) =~= Seq::<Seq<char>>::empty());
        assert(buffer + joined(lines.skip(at)) =~= buffer);
    } else {
        let grown = buffer + lines[at] + seq!['\n'];
        assert(lines.skip(at)[0] == lines[at]);
        assert(lines.skip(at).drop_first() =~= lines.skip(at + 1));
        if splits_at(directives, at) {
            let rest = groups_from(lines, directives, at + 1, Seq::empty());
            lemma_groups_keep_text(lines, directives, at + 1, Seq::empty());
            assert(groups.first() == grown);
            assert(groups.drop_first() =~= rest);
            assert(groups.flatten() =~= grown + rest.flatten());
            assert(grown + (Seq::<char>::empty() + joined(lines.skip(at + 1))) =~= buffer + joined(
                lines.skip(at),
            ));
        } else {
            lemma_groups_keep_text(lines, directives, at + 1, grown);
            assert(grown + joined(lines.skip(at + 1)) =~= buffer + joined(lines.skip(at)));
        }
    }
}

/// Lines of which none closes its group all fall into one group.
pub proof fn lemma_no_split_one_group(
    lines: Seq<Seq<char>>,
    directives: Seq<Option<SqlDirective>>,
    at: int,
    buffer: Seq<char>,
)
    requires
        0 <= at <= lines.len(),
        forall|i: int| at <= i < lines.len() ==> !splits_at(directives, i),
    ensures
        groups_from(lines, directives, at, buffer) == seq![buffer + joined(lines.skip(at))],
    decreases lines.len() - at,
{
    if at >= lines.len() {
        assert(lines.skip(at) =~= Seq::<Seq<char>>::empty());
        assert(buffer + joined(lines.skip(at)) =~= buffer);
    } else {
        let grown = buffer + lines[at] + seq!['\n'];
        assert(lines.skip(at)[0] == lines[at]);
        assert(lines.skip(at).drop_first() =~= lines.skip(at + 1));
        lemma_no_split_one_group(lines, directives, at + 1, grown);
        assert(grown + joined(lines.skip(at + 1)) =~= buffer + joined(lines.skip(at)));
    }
}

/// A text whose lines all end in a line feed alone is its lines put back
/// together.
pub proof fn lemma_joined_lines(text: Seq<char>)
    requires
        feeds_end_lines(text),
    ensures
        joined(lines_of(text)) == text,
    decreases text.len(),
{
    if text.len() == 0 {
        assert(joined(lines_of(text)) =~= text);
    } else {
        let k = first_break(text);
        lemma_first_break_found(text);
        if k == text.len() {
            assert(text[text.len() - 1] == '\n');
        }
        let line = text.take(k);
        let rest = text.skip(k + 1);
        if k > 0 {
            assert(line.last() == text[k - 1]);
        }
        assert(without_return(line) == line);
        assert(feeds_end_lines(rest)) by {
            if rest.len() > 0 {
                assert(rest.last() == text.last());
            }
            assert forall|i: int| 0 < i < rest.len() && (#[trigger] rest[i]) == '\n' implies rest[i
                - 1] != '\r' by {
                assert(rest[i] == text[k + 1 + i]);
                assert(rest[i - 1] == text[k + i]);
            }
        }
        lemma_joined_lines(rest);
        let lines = lines_of(text);
        assert(lines[0] == line);
        assert(lines.drop_first() =~= lines_of(rest));
        assert(line + seq!['\n'] + rest =~= text);
    }
}

/// A script without a directive, whose lines all end in a line feed alone, is
/// one group: the script itself.
pub proof fn lemma_plain_script_is_one_group(text: Seq<char>)
    requires
        feeds_end_lines(text),
        forall|k: int|
            0 <= k < lines_of(text).len() ==> SqlDirective::of_line(#[trigger] lines_of(text)[k])
                is None,
    ensures
        statement_groups(text) == seq![text],
{
    let lines = lines_of(text);
    lemma_no_split_one_group(lines, directives_of(lines), 0, Seq::empty());
    lemma_joined_lines(text);
    assert(lines.skip(0) =~= lines);
    assert(Seq::<char>::empty() + text =~= text);
}

/// The groups of a script, read one after the other, are its lines put back
/// together: splitting moves no character.
pub proof fn lemma_statement_groups_keep_text(text: Seq<char>)
    ensures
        statement_groups(text).flatten() == joined(lines_of(text)),
{
    let lines = lines_of(text);
    lemma_groups_keep_text(lines, directives_of(lines), 0, Seq::empty());
    assert(lines.skip(0) =~= lines);
    assert(Seq::<char>::empty() + joined(lines) =~= joined(lines));
}

/// How many semicolons `text` holds.
pub open spec fn semicolons(text: Seq<char>) -> nat
    decreases text.len(),
{
    if text.len() == 0 {
        0
    } else {
        semicolons(text.drop_last()) + if text.last() == ';' {
            1nat
        } else {
            0nat
        }
    }
}

/// `text` holds more than one semicolon: it may be several statements, of
/// which some drivers run the first alone.
pub open spec fn several_statements(text: Seq<char>) -> bool {
    semicolons(text) > 1
}

/// Whether `sql` holds more than one semicolon.
pub fn has_several_statements(sql: &str) -> (r: bool)
    ensures
        r == several_statements(sql@),
{
    let chars = chars_of(sql);
    let mut found: usize = 0;
    let mut i: usize = 0;
    while i < chars.len()
        invariant
            i <= chars@.len(),
            found == semicolons(chars@.take(i as int)),
            found <= i,
        decreases chars@.len() - i,
    {
        if chars[i] == ';' {
            found += 1;
        }
        i += 1;
        assert(chars@.take(i as int).drop_last() =~= chars@.take(i - 1));
    }
    assert(chars@.take(i as int) =~= chars@);
    found > 1
}

} // verus!
