//! The highscore file: one record per line, `name;score;level;timestamp`,
//! and the table of the best results that the game shows from it.

use vstd::prelude::*;
use crate::text::{
    byte_len, byte_len_within, int_text, lines_of, push_char, push_text, parse_i32, parse_i32_text, push_i32, push_repeated, repeated, split_on,
    push_u64, split_text, text_lines, texts, lemma_split_on_join, lemma_split_on_no_sep,
    lemma_parse_int_text, lemma_int_text_chars, lemma_split_on_len, strip_cr, is_digit,
};

verus! {

broadcast use vstd::seq_lib::group_to_multiset_ensures;

/// One result read back from the highscore file.
pub struct HighscoreEntry {
    pub username: String,
    pub score: i32,
    pub level: i32,
}

/// A result as the contracts see it: the name, the score and the level.
pub type ScoreRow = (Seq<char>, i32, i32);

/// The view of one entry.
pub open spec fn row_of(e: HighscoreEntry) -> ScoreRow {
    (e.username@, e.score, e.level)
}

/// The views of a sequence of entries.
pub open spec fn rows_of(v: Seq<HighscoreEntry>) -> Seq<ScoreRow> {
    v.map_values(|e: HighscoreEntry| row_of(e))
}

/// Where a row goes in a sequence ordered by descending score: after every
/// row at the front whose score is at least its own.
pub open spec fn insert_pos(t: Seq<ScoreRow>, e: ScoreRow) -> nat
    decreases t.len(),
{
    if t.len() == 0 {
        0
    } else if t[0].1 < e.1 {
        0
    } else {
        1 + insert_pos(t.drop_first(), e)
    }
}

/// `e` put into `t` at its place by descending score, behind the rows of
/// equal score.
pub open spec fn insert_by_score(t: Seq<ScoreRow>, e: ScoreRow) -> Seq<ScoreRow> {
    let p = insert_pos(t, e) as int;
    t.take(p) + seq![e] + t.skip(p)
}

/// The rows ordered by descending score, rows of equal score in the order in
/// which they came (the stable sort that `sort_by` with a descending
/// comparison of scores performs).
pub open spec fn sort_by_score(s: Seq<ScoreRow>) -> Seq<ScoreRow>
    decreases s.len(),
{
    if s.len() == 0 {
        s
    } else {
        insert_by_score(sort_by_score(s.drop_last()), s.last())
    }
}

/// Ordered by descending score.
pub open spec fn descending(s: Seq<ScoreRow>) -> bool {
    forall|i: int, j: int| 0 <= i < j < s.len() ==> s[i].1 >= s[j].1
}

/// The rows with score `k`.
pub open spec fn with_score(s: Seq<ScoreRow>, k: i32) -> Seq<ScoreRow> {
    s.filter(score_is(k))
}

/// Whether a row has score `k`.
pub open spec fn score_is(k: i32) -> spec_fn(ScoreRow) -> bool {
    |r: ScoreRow| r.1 == k
}

proof fn lemma_insert_pos(t: Seq<ScoreRow>, e: ScoreRow)
    ensures
        insert_pos(t, e) <= t.len(),
        forall|j: int| 0 <= j < insert_pos(t, e) ==> t[j].1 >= e.1,
        insert_pos(t, e) < t.len() ==> t[insert_pos(t, e) as int].1 < e.1,
    decreases t.len(),
{
    if t.len() > 0 && t[0].1 >= e.1 {
        lemma_insert_pos(t.drop_first(), e);
        assert forall|j: int| 0 <= j < insert_pos(t, e) implies t[j].1 >= e.1 by {
            if j > 0 {
                assert(t[j] == t.drop_first()[j - 1]);
            }
        }
    }
}

/// A position with those properties is the insertion position.
proof fn lemma_insert_pos_unique(t: Seq<ScoreRow>, e: ScoreRow, q: int)
    requires
        0 <= q <= t.len(),
        forall|j: int| 0 <= j < q ==> t[j].1 >= e.1,
        q < t.len() ==> t[q].1 < e.1,
    ensures
        insert_pos(t, e) == q,
{
    lemma_insert_pos(t, e);
    let p = insert_pos(t, e) as int;
    if p < q {
        assert(t[p].1 >= e.1);
    }
    if q < p {
        assert(t[q].1 >= e.1);
    }
}

proof fn lemma_insert_descending(t: Seq<ScoreRow>, e: ScoreRow)
    requires
        descending(t),
    ensures
        descending(insert_by_score(t, e)),
{
    lemma_insert_pos(t, e);
    let p = insert_pos(t, e) as int;
    let r = insert_by_score(t, e);
    assert forall|i: int, j: int| 0 <= i < j < r.len() implies r[i].1 >= r[j].1 by {
        if j < p {
            assert(r[i] == t[i] && r[j] == t[j]);
        } else if j == p {
            assert(r[i] == t[i]);
        } else if i < p {
            assert(r[i] == t[i] && r[j] == t[j - 1]);
        } else if i == p {
            assert(r[j] == t[j - 1]);
            assert(t[p].1 < e.1);
        } else {
            assert(r[i] == t[i - 1] && r[j] == t[j - 1]);
        }
    }
}

/// The rows that `sort_by_score` gives are ordered by descending score.
pub proof fn lemma_sort_descending(s: Seq<ScoreRow>)
    ensures
        descending(sort_by_score(s)),
    decreases s.len(),
{
    if s.len() > 0 {
        lemma_sort_descending(s.drop_last());
        lemma_insert_descending(sort_by_score(s.drop_last()), s.last());
    }
}

proof fn lemma_insert_multiset(t: Seq<ScoreRow>, e: ScoreRow)
    ensures
        insert_by_score(t, e).to_multiset() =~= t.to_multiset().insert(e),
        insert_by_score(t, e).len() == t.len() + 1,
{
    lemma_insert_pos(t, e);
    let p = insert_pos(t, e) as int;
    let r = insert_by_score(t, e);
    assert(r.remove(p) =~= t);
    assert(r[p] == e);
    assert(r.to_multiset().count(e) > 0);
}

/// Sorting keeps every row, as often as it occurs.
pub proof fn lemma_sort_permutation(s: Seq<ScoreRow>)
    ensures
        sort_by_score(s).to_multiset() =~= s.to_multiset(),
        sort_by_score(s).len() == s.len(),
    decreases s.len(),
{
    if s.len() > 0 {
        lemma_sort_permutation(s.drop_last());
        lemma_insert_multiset(sort_by_score(s.drop_last()), s.last());
        assert(s.drop_last().push(s.last()) =~= s);
    }
}

/// Sorting keeps the rows of equal score in the order in which they came:
/// for every score, the rows with that score are the same before and after.
pub proof fn lemma_sort_stable(s: Seq<ScoreRow>, k: i32)
    ensures
        with_score(sort_by_score(s), k) == with_score(s, k),
    decreases s.len(),
{
    if s.len() > 0 {
        let init = s.drop_last();
        let t = sort_by_score(init);
        let e = s.last();
        let pred = score_is(k);
        lemma_sort_stable(init, k);
        lemma_sort_descending(init);
        lemma_sort_permutation(init);
        lemma_insert_pos(t, e);
        let p = insert_pos(t, e) as int;
        let a = t.take(p);
        let b = t.skip(p);
        assert(t =~= a + b);
        assert(sort_by_score(s) == a + seq![e] + b);
        Seq::filter_distributes_over_add(a, b, pred);
        Seq::filter_distributes_over_add(a + seq![e], b, pred);
        Seq::filter_distributes_over_add(a, seq![e], pred);
        reveal_with_fuel(Seq::filter, 2);
        assert(s.filter(pred) == (if pred(e) {
            init.filter(pred).push(e)
        } else {
            init.filter(pred)
        }));
        if e.1 == k {
            assert forall|j: int| 0 <= j < b.len() implies !pred(#[trigger] b[j]) by {
                assert(b[j] == t[p + j]);
                assert(t[p].1 < e.1);
                assert(t[p].1 >= t[p + j].1);
            }
            assert(b.all(|x: ScoreRow| !pred(x)));
            b.lemma_all_neg_filter_empty(pred);
            assert(b.filter(pred) =~= Seq::<ScoreRow>::empty());
            assert(seq![e].filter(pred) =~= seq![e]);
            assert(with_score(sort_by_score(s), k) =~= with_score(s, k));
        } else {
            assert(seq![e].filter(pred) =~= Seq::<ScoreRow>::empty());
            assert(with_score(sort_by_score(s), k) =~= with_score(s, k));
        }
    }
}

/// The row that a line of the file holds: a line of four `;`-separated
/// fields gives the first as the name, the second as the score and the third
/// as the level; any other line gives none.
pub open spec fn line_row(line: Seq<char>) -> Option<ScoreRow> {
    let parts = split_on(line, ';');
    if parts.len() == 4 {
        Some((parts[0], parse_i32(parts[1])->0, parse_i32(parts[2])->0))
    } else {
        None
    }
}

/// A line that can be read: if it has four fields, its score and its level
/// parse as `i32`. Reading a line that cannot be read fails.
pub open spec fn line_readable(line: Seq<char>) -> bool {
    let parts = split_on(line, ';');
    parts.len() == 4 ==> (parse_i32(parts[1]) is Some && parse_i32(parts[2]) is Some)
}

/// The rows of a sequence of lines, in order.
pub open spec fn rows_from_lines(lines: Seq<Seq<char>>) -> Seq<ScoreRow>
    decreases lines.len(),
{
    if lines.len() == 0 {
        Seq::empty()
    } else {
        let init = rows_from_lines(lines.drop_last());
        match line_row(lines.last()) {
            Some(r) => init.push(r),
            None => init,
        }
    }
}

/// The rows of the highscore file's text.
pub open spec fn highscore_rows(content: Seq<char>) -> Seq<ScoreRow> {
    rows_from_lines(text_lines(content))
}

/// The byte length of the longest name, 0 where there is none.
pub open spec fn longest_name(rows: Seq<ScoreRow>) -> nat
    decreases rows.len(),
{
    if rows.len() == 0 {
        0
    } else {
        let m = longest_name(rows.drop_last());
        let l = byte_len(rows.last().0);
        if l > m {
            l
        } else {
            m
        }
    }
}

/// The width of the name column: the longest name, and at least 6.
pub open spec fn table_padding(rows: Seq<ScoreRow>) -> nat {
    if longest_name(rows) < 6 {
        6
    } else {
        longest_name(rows)
    }
}

/// The highscore text can be shown: every line can be read, and the table's
/// rules, `padding + 30` characters long, have a length that fits in a `usize`.
pub open spec fn highscore_content_ok(content: Seq<char>) -> bool {
    &&& forall|i: int|
        0 <= i < text_lines(content).len() ==> line_readable(#[trigger] text_lines(content)[i])
    &&& table_padding(highscore_rows(content)) + 30 <= usize::MAX
}

/// A rule of the table.
pub open spec fn rule_line(padding: nat) -> Seq<char> {
    seq![' '] + repeated('-', padding + 30)
}

/// The column titles of the table.
pub open spec fn header_line(padding: nat) -> Seq<char> {
    " Player"@ + repeated(' ', (padding - 6) as nat) + "\tScore\t\tLevel"@
}

/// The table line of one result: the name, padded to the column's width,
/// the score and the level.
pub open spec fn score_line(r: ScoreRow, padding: nat) -> Seq<char> {
    seq![' '] + r.0 + repeated(' ', (padding - byte_len(r.0)) as nat) + "\t "@ + int_text(
        r.1 as int,
    ) + "\t\t "@ + int_text(r.2 as int)
}

/// The rows that the table shows: the ten best, by descending score.
pub open spec fn shown_rows(rows: Seq<ScoreRow>) -> Seq<ScoreRow> {
    let sorted = sort_by_score(rows);
    if sorted.len() <= 10 {
        sorted
    } else {
        sorted.take(10)
    }
}

/// The lines of the highscore table for the text of the highscore file.
pub open spec fn highscore_table(content: Seq<char>) -> Seq<Seq<char>> {
    let rows = highscore_rows(content);
    let p = table_padding(rows);
    seq![" Top 10 highscores:"@, rule_line(p), header_line(p), rule_line(p)] + shown_rows(
        rows,
    ).map_values(|r: ScoreRow| score_line(r, p)) + seq![rule_line(p)]
}

/// Reads the results out of the text of the highscore file: one per line of
/// four `;`-separated fields, in the order of the lines.
pub fn read_highscores(content: &str) -> (entries: Vec<HighscoreEntry>)
    requires
        forall|i: int|
            0 <= i < text_lines(content@).len() ==> line_readable(
                #[trigger] text_lines(content@)[i],
            ),
    ensures
        rows_of(entries@) == highscore_rows(content@),
{
    let lines = lines_of(content);
    let mut entries: Vec<HighscoreEntry> = Vec::new();
    let n = lines.len();
    assert(texts(lines@).take(0) =~= Seq::<Seq<char>>::empty());
    for i in 0..n
        invariant
            n == lines@.len(),
            texts(lines@) == text_lines(content@),
            forall|j: int|
                0 <= j < text_lines(content@).len() ==> line_readable(
                    #[trigger] text_lines(content@)[j],
                ),
            rows_of(entries@) == rows_from_lines(texts(lines@).take(i as int)),
    {
        let ghost line = lines@[i as int]@;
        assert(texts(lines@)[i as int] == line);
        assert(line_readable(text_lines(content@)[i as int]));
        assert(texts(lines@).take(i + 1).drop_last() =~= texts(lines@).take(i as int));
        assert(texts(lines@).take(i + 1).last() == line);
        let parts = split_text(lines[i].as_str(), ';');
        assert(texts(parts@) == split_on(line, ';'));
        let ghost old_entries = entries@;
        if parts.len() == 4 {
            assert(texts(parts@)[1] == parts@[1]@ && texts(parts@)[2] == parts@[2]@);
            let score = match parse_i32_text(parts[1].as_str()) {
                Some(v) => v,
                None => {
                    assert(false);
                    0
                },
            };
            let level = match parse_i32_text(parts[2].as_str()) {
                Some(v) => v,
                None => {
                    assert(false);
                    0
                },
            };
            let username = parts[0].clone();
            assert(username@ == texts(parts@)[0]);
            let e = HighscoreEntry { username, score, level };
            entries.push(e);
            assert(rows_of(entries@) =~= rows_of(old_entries).push(row_of(e)));
        }
    }
    assert(texts(lines@).take(n as int) =~= texts(lines@));
    entries
}

/// Orders the results by descending score, keeping results of equal score
/// in the order in which they came.
pub fn sort_highscores(entries: Vec<HighscoreEntry>) -> (sorted: Vec<HighscoreEntry>)
    ensures
        rows_of(sorted@) == sort_by_score(rows_of(entries@)),
{
    let ghost all = rows_of(entries@);
    let mut rest = entries;
    let mut sorted: Vec<HighscoreEntry> = Vec::new();
    let ghost mut i: int = 0;
    assert(all.take(0) =~= Seq::<ScoreRow>::empty());
    assert(rows_of(rest@) =~= all.skip(0));
    while rest.len() > 0
        invariant
            0 <= i <= all.len(),
            i + rest@.len() == all.len(),
            rows_of(rest@) == all.skip(i),
            rows_of(sorted@) == sort_by_score(all.take(i)),
        decreases rest.len(),
    {
        let ghost old_rest = rest@;
        assert(rows_of(old_rest)[0] == all.skip(i)[0]);
        let e = rest.remove(0);
        assert(row_of(e) == all[i]);
        assert forall|j: int| 0 <= j < rest@.len() implies #[trigger] rows_of(rest@)[j] == all.skip(
            i + 1,
        )[j] by {
            assert(rest@[j] == old_rest[j + 1]);
            assert(rows_of(old_rest)[j + 1] == all.skip(i)[j + 1]);
        }
        assert(rows_of(rest@) =~= all.skip(i + 1));
        let ghost t = rows_of(sorted@);
        let mut p: usize = 0;
        while p < sorted.len() && sorted[p].score >= e.score
            invariant
                p <= sorted@.len(),
                t == rows_of(sorted@),
                forall|j: int| 0 <= j < p ==> t[j].1 >= e.score,
            decreases sorted@.len() - p,
        {
            p = p + 1;
        }
        proof {
            lemma_insert_pos_unique(t, row_of(e), p as int);
        }
        let ghost ev = row_of(e);
        sorted.insert(p, e);
        assert(rows_of(sorted@) =~= insert_by_score(t, ev));
        proof {
            assert(all.take(i + 1).drop_last() =~= all.take(i));
            assert(all.take(i + 1).last() == ev);
            i = i + 1;
        }
    }
    assert(all.take(i) =~= all);
    sorted
}

/// The width of the name column for these results, when that width plus 30
/// fits in a `usize`; `None` when it does not.
pub fn name_column_width(entries: &Vec<HighscoreEntry>) -> (w: Option<usize>)
    ensures
        match w {
            Some(p) => p == table_padding(rows_of(entries@)) && p + 30 <= usize::MAX,
            None => table_padding(rows_of(entries@)) + 30 > usize::MAX,
        },
{
    let limit: usize = usize::MAX - 30;
    let mut longest: usize = 0;
    let ghost rows = rows_of(entries@);
    assert(rows.take(0) =~= Seq::<ScoreRow>::empty());
    for i in 0..entries.len()
        invariant
            rows == rows_of(entries@),
            longest == longest_name(rows.take(i as int)),
            longest <= limit,
            limit == usize::MAX - 30,
    {
        assert(rows.take(i + 1).drop_last() =~= rows.take(i as int));
        assert(rows.take(i + 1).last() == row_of(entries@[i as int]));
        match byte_len_within(entries[i].username.as_str(), limit) {
            Some(l) => {
                if l > longest {
                    longest = l;
                }
            },
            None => {
                proof {
                    lemma_longest_name_prefix(rows, i + 1);
                }
                return None;
            },
        }
    }
    assert(rows.take(entries@.len() as int) =~= rows);
    if longest < 6 {
        Some(6)
    } else {
        Some(longest)
    }
}

/// No name is longer than the longest.
proof fn lemma_longest_name_prefix(rows: Seq<ScoreRow>, k: int)
    requires
        0 <= k <= rows.len(),
    ensures
        longest_name(rows.take(k)) <= longest_name(rows),
    decreases rows.len(),
{
    if k < rows.len() {
        lemma_longest_name_prefix(rows.drop_last(), k);
        assert(rows.drop_last().take(k) =~= rows.take(k));
    } else {
        assert(rows.take(k) =~= rows);
    }
}

/// Every name is at most as long as the longest.
proof fn lemma_longest_name_bound(rows: Seq<ScoreRow>, j: int)
    requires
        0 <= j < rows.len(),
    ensures
        byte_len(rows[j].0) <= longest_name(rows),
    decreases rows.len(),
{
    if j < rows.len() - 1 {
        lemma_longest_name_bound(rows.drop_last(), j);
    }
}

/// The names in the sorted rows are those of the rows, so none is longer than
/// the longest.
proof fn lemma_sorted_name_bound(rows: Seq<ScoreRow>, i: int)
    requires
        0 <= i < sort_by_score(rows).len(),
    ensures
        byte_len(sort_by_score(rows)[i].0) <= longest_name(rows),
{
    let x = sort_by_score(rows)[i];
    lemma_sort_permutation(rows);
    assert(sort_by_score(rows).contains(x));
    assert(rows.to_multiset().count(x) > 0);
    assert(rows.contains(x));
    let j = choose|j: int| 0 <= j < rows.len() && rows[j] == x;
    lemma_longest_name_bound(rows, j);
}

/// Whether the highscore text can be shown (see `highscore_content_ok`):
/// reading it fails, or its table cannot be drawn, exactly where this is false.
pub fn check_highscore_content(content: &str) -> (ok: bool)
    ensures
        ok == highscore_content_ok(content@),
{
    let lines = lines_of(content);
    let n = lines.len();
    for i in 0..n
        invariant
            n == lines@.len(),
            texts(lines@) == text_lines(content@),
            forall|j: int| 0 <= j < i ==> line_readable(#[trigger] text_lines(content@)[j]),
    {
        let parts = split_text(lines[i].as_str(), ';');
        assert(texts(lines@)[i as int] == lines@[i as int]@);
        if parts.len() == 4 {
            assert(texts(parts@)[1] == parts@[1]@ && texts(parts@)[2] == parts@[2]@);
            let a = parse_i32_text(parts[1].as_str());
            let b = parse_i32_text(parts[2].as_str());
            if a.is_none() || b.is_none() {
                assert(!line_readable(text_lines(content@)[i as int]));
                return false;
            }
        }
    }
    let entries = read_highscores(content);
    match name_column_width(&entries) {
        Some(_) => true,
        None => false,
    }
}

/// A rule of the table, `padding + 30` dashes after a space.
fn rule(padding: usize) -> (r: String)
    requires
        padding + 30 <= usize::MAX,
    ensures
        r@ == rule_line(padding as nat),
{
    let mut r = String::new();
    push_char(&mut r, ' ');
    push_repeated(&mut r, '-', padding + 30);
    assert(r@ =~= rule_line(padding as nat));
    r
}

/// The table of the ten best results in the text of the highscore file, line
/// by line: a title, the column titles between two rules, one line per result
/// by descending score, and a closing rule.
pub fn top_highscores(content: &str) -> (table: Vec<String>)
    requires
        highscore_content_ok(content@),
    ensures
        texts(table@) == highscore_table(content@),
{
    let entries = read_highscores(content);
    let ghost rows = rows_of(entries@);
    let padding = match name_column_width(&entries) {
        Some(p) => p,
        None => {
            assert(false);
            6
        },
    };
    let sorted = sort_highscores(entries);
    let mut table: Vec<String> = Vec::new();
    table.push(" Top 10 highscores:".to_string());
    table.push(rule(padding));
    let mut header = " Player".to_string();
    push_repeated(&mut header, ' ', padding - 6);
    push_text(&mut header, "\tScore\t\tLevel");
    table.push(header);
    table.push(rule(padding));
    let ghost shown = shown_rows(rows);
    let count: usize = if sorted.len() <= 10 {
        sorted.len()
    } else {
        10
    };
    proof {
        lemma_sort_permutation(rows);
    }
    let ghost head = texts(table@);
    assert(header@ == header_line(padding as nat));
    assert(head =~= seq![
        " Top 10 highscores:"@,
        rule_line(padding as nat),
        header_line(padding as nat),
        rule_line(padding as nat),
    ]);
    for i in 0..count
        invariant
            count <= sorted@.len(),
            rows_of(sorted@) == sort_by_score(rows),
            shown.len() == count,
            forall|j: int| 0 <= j < count ==> shown[j] == sort_by_score(rows)[j],
            padding == table_padding(rows),
            texts(table@) == head + shown.take(i as int).map_values(
                |r: ScoreRow| score_line(r, padding as nat),
            ),
            head.len() == 4,
    {
        let e = &sorted[i];
        assert(row_of(*e) == shown[i as int]);
        let mut line = String::new();
        push_char(&mut line, ' ');
        push_text(&mut line, e.username.as_str());
        proof {
            lemma_sorted_name_bound(rows, i as int);
        }
        match byte_len_within(e.username.as_str(), padding) {
            Some(l) => push_repeated(&mut line, ' ', padding - l),
            None => {},
        }
        push_text(&mut line, "\t ");
        push_i32(&mut line, e.score);
        push_text(&mut line, "\t\t ");
        push_i32(&mut line, e.level);
        let ghost old_table = table@;
        table.push(line);
        assert(texts(table@) =~= texts(old_table).push(line@));
        assert(shown.take(i + 1) =~= shown.take(i as int).push(shown[i as int]));
        assert(line@ =~= score_line(shown[i as int], padding as nat));
    }
    let ghost before = table@;
    let last_rule = rule(padding);
    table.push(last_rule);
    assert(texts(table@) =~= texts(before).push(last_rule@));
    assert(shown.take(count as int) =~= shown);
    assert(texts(table@) =~= highscore_table(content@));
    table
}

/// Lines joined into one text, a line feed between each two.
pub open spec fn join_lines(ls: Seq<Seq<char>>) -> Seq<char>
    decreases ls.len(),
{
    if ls.len() == 0 {
        Seq::empty()
    } else if ls.len() == 1 {
        ls[0]
    } else {
        join_lines(ls.drop_last()) + seq!['\n'] + ls.last()
    }
}

/// The highscore table as one text, its lines joined by line feeds, as the
/// game prints it.
pub fn highscore_screen(content: &str) -> (screen: String)
    requires
        highscore_content_ok(content@),
    ensures
        screen@ == join_lines(highscore_table(content@)),
{
    let table = top_highscores(content);
    let ghost ls = texts(table@);
    let mut screen = String::new();
    assert(ls.take(0) =~= Seq::<Seq<char>>::empty());
    for i in 0..table.len()
        invariant
            ls == texts(table@),
            screen@ == join_lines(ls.take(i as int)),
    {
        assert(ls[i as int] == table@[i as int]@);
        assert(ls.take(i + 1).drop_last() =~= ls.take(i as int));
        assert(ls.take(i + 1).last() == ls[i as int]);
        if i > 0 {
            push_char(&mut screen, '\n');
        } else {
            assert(screen@ =~= Seq::<char>::empty());
        }
        push_text(&mut screen, table[i].as_str());
        assert(screen@ =~= join_lines(ls.take(i + 1)));
    }
    assert(ls.take(table@.len() as int) =~= ls);
    screen
}

/// The line that records a result in the highscore file (without its line
/// feed): the name, the score, the level and the time in seconds, separated
/// by `;`.
pub open spec fn record_line(name: Seq<char>, score: i32, level: i32, timestamp: u64) -> Seq<
    char,
> {
    name + seq![';'] + int_text(score as int) + seq![';'] + int_text(level as int) + seq![';']
        + int_text(timestamp as int)
}

/// The line that records a player's result in the highscore file.
pub fn highscore_record(name: &str, score: i32, level: i32, timestamp: u64) -> (line: String)
    ensures
        line@ == record_line(name@, score, level, timestamp),
{
    let mut line = String::new();
    push_text(&mut line, name);
    push_char(&mut line, ';');
    push_i32(&mut line, score);
    push_char(&mut line, ';');
    push_i32(&mut line, level);
    push_char(&mut line, ';');
    push_u64(&mut line, timestamp);
    assert(line@ =~= record_line(name@, score, level, timestamp));
    line
}

/// The fields of a record line are the name, the score, the level and the
/// time, when the name holds no `;`.
proof fn lemma_record_fields(name: Seq<char>, score: i32, level: i32, timestamp: u64)
    requires
        !name.contains(';'),
    ensures
        split_on(record_line(name, score, level, timestamp), ';') == seq![
            name,
            int_text(score as int),
            int_text(level as int),
            int_text(timestamp as int),
        ],
{
    let ts = int_text(score as int);
    let tl = int_text(level as int);
    let tt = int_text(timestamp as int);
    assert(!is_digit(';'));
    lemma_int_text_chars(score as int, ';');
    lemma_int_text_chars(level as int, ';');
    lemma_int_text_chars(timestamp as int, ';');
    lemma_split_on_no_sep(name, ';');
    lemma_split_on_no_sep(ts, ';');
    lemma_split_on_no_sep(tl, ';');
    lemma_split_on_no_sep(tt, ';');
    let r3 = tl.push(';') + tt;
    lemma_split_on_join(tl, tt, ';');
    let r2 = ts.push(';') + r3;
    lemma_split_on_join(ts, r3, ';');
    let r1 = name.push(';') + r2;
    lemma_split_on_join(name, r2, ';');
    assert(record_line(name, score, level, timestamp) =~= r1);
    assert(split_on(r1, ';') =~= seq![name, ts, tl, tt]);
}

/// A record line holds no line feed when the name holds none, and it does not
/// end with a carriage return.
proof fn lemma_record_line_shape(name: Seq<char>, score: i32, level: i32, timestamp: u64)
    requires
        !name.contains('\n'),
    ensures
        !record_line(name, score, level, timestamp).contains('\n'),
        strip_cr(record_line(name, score, level, timestamp)) == record_line(
            name,
            score,
            level,
            timestamp,
        ),
        record_line(name, score, level, timestamp).len() > 0,
{
    let r = record_line(name, score, level, timestamp);
    let tt = int_text(timestamp as int);
    assert(!is_digit('\n') && !is_digit('\r'));
    lemma_int_text_chars(score as int, '\n');
    lemma_int_text_chars(level as int, '\n');
    lemma_int_text_chars(timestamp as int, '\n');
    lemma_int_text_chars(timestamp as int, '\r');
    crate::text::lemma_decimal(timestamp as nat);
    assert(r.last() == tt.last());
    assert(tt.contains(tt.last()));
    assert forall|i: int| 0 <= i < r.len() implies r[i] != '\n' by {
        let n1 = name.len() as int;
        let n2 = n1 + 1 + int_text(score as int).len();
        let n3 = n2 + 1 + int_text(level as int).len();
        if i < n1 {
            assert(r[i] == name[i]);
        } else if i == n1 || i == n2 || i == n3 {
        } else if i < n2 {
            assert(r[i] == int_text(score as int)[i - n1 - 1]);
        } else if i < n3 {
            assert(r[i] == int_text(level as int)[i - n2 - 1]);
        } else {
            assert(r[i] == tt[i - n3 - 1]);
        }
    }
}

/// Lines of a text that is empty or ends with a line feed, with one more line
/// and its line feed added, are the lines of the text and that line.
proof fn lemma_lines_append(content: Seq<char>, line: Seq<char>)
    requires
        content.len() == 0 || content.last() == '\n',
        !line.contains('\n'),
        strip_cr(line) == line,
        line.len() > 0,
    ensures
        text_lines(content + line.push('\n')) == text_lines(content).push(line),
{
    lemma_split_on_no_sep(line, '\n');
    let lp = line.push('\n');
    assert(lp.drop_last() =~= line);
    assert(split_on(lp, '\n') =~= seq![line, Seq::<char>::empty()]);
    if content.len() == 0 {
        assert(content + lp =~= lp);
        assert(split_on(content, '\n') =~= seq![Seq::<char>::empty()]);
        assert(text_lines(content) =~= Seq::<Seq<char>>::empty());
        let segs = split_on(lp, '\n');
        assert(segs.drop_last().map_values(|l: Seq<char>| strip_cr(l)) =~= seq![line]);
    } else {
        let c0 = content.drop_last();
        assert(c0.push('\n') =~= content);
        lemma_split_on_join(c0, lp, '\n');
        assert(c0.push('\n') + lp =~= content + lp);
        lemma_split_on_join(c0, Seq::<char>::empty(), '\n');
        assert(c0.push('\n') + Seq::<char>::empty() =~= content);
        lemma_split_on_len(c0, '\n');
        let s0 = split_on(c0, '\n');
        assert(split_on(Seq::<char>::empty(), '\n') =~= seq![Seq::<char>::empty()]);
        let old_segs = s0 + seq![Seq::<char>::empty()];
        let new_segs = s0 + seq![line, Seq::<char>::empty()];
        assert(old_segs.drop_last() =~= s0);
        assert(new_segs.drop_last() =~= s0.push(line));
        assert(s0.push(line).map_values(|l: Seq<char>| strip_cr(l)) =~= s0.map_values(
            |l: Seq<char>| strip_cr(l),
        ).push(line));
    }
}

/// What a write gives back when read: adding a record line, with its line
/// feed, to a highscore text that is empty or ends with a line feed adds
/// exactly the recorded name, score and level as the last result, when the
/// name holds no `;` and no line feed; and the new line can be read.
pub proof fn lemma_record_read_back(
    content: Seq<char>,
    name: Seq<char>,
    score: i32,
    level: i32,
    timestamp: u64,
)
    requires
        content.len() == 0 || content.last() == '\n',
        !name.contains(';'),
        !name.contains('\n'),
    ensures
        highscore_rows(content + record_line(name, score, level, timestamp).push('\n'))
            == highscore_rows(content).push((name, score, level)),
        line_readable(record_line(name, score, level, timestamp)),
{
    let line = record_line(name, score, level, timestamp);
    lemma_record_fields(name, score, level, timestamp);
    lemma_record_line_shape(name, score, level, timestamp);
    lemma_parse_int_text(score);
    lemma_parse_int_text(level);
    lemma_lines_append(content, line);
    let ls = text_lines(content).push(line);
    assert(ls.drop_last() =~= text_lines(content));
    assert(line_row(line) == Some((name, score, level)));
}

/// The table shows the best results: at most ten, the first of the sorted
/// rows, in descending order, and none of the rows left out scores more than
/// one that is shown.
pub proof fn lemma_shown_rows_best(rows: Seq<ScoreRow>)
    ensures
        shown_rows(rows).len() == if rows.len() <= 10 {
            rows.len()
        } else {
            10
        },
        forall|i: int| 0 <= i < shown_rows(rows).len() ==> #[trigger] shown_rows(rows)[i] == sort_by_score(rows)[i],
        descending(shown_rows(rows)),
        forall|i: int, j: int|
            0 <= i < shown_rows(rows).len() <= j < rows.len() ==> #[trigger] sort_by_score(rows)[i].1
                >= #[trigger] sort_by_score(rows)[j].1,
{
    lemma_sort_permutation(rows);
    lemma_sort_descending(rows);
}

/// The table has the title, the column titles between two rules, a line for
/// each result shown, and a closing rule.
pub proof fn lemma_table_length(content: Seq<char>)
    ensures
        highscore_table(content).len() == 5 + shown_rows(highscore_rows(content)).len(),
{
}

/// How many rows score at least `x`.
pub open spec fn count_at_least(s: Seq<ScoreRow>, x: i32) -> nat
    decreases s.len(),
{
    if s.len() == 0 {
        0
    } else {
        count_at_least(s.drop_last(), x) + if s.last().1 >= x {
            1nat
        } else {
            0nat
        }
    }
}

proof fn lemma_count_add(a: Seq<ScoreRow>, b: Seq<ScoreRow>, x: i32)
    ensures
        count_at_least(a + b, x) == count_at_least(a, x) + count_at_least(b, x),
    decreases b.len(),
{
    if b.len() == 0 {
        assert(a + b =~= a);
    } else {
        lemma_count_add(a, b.drop_last(), x);
        assert((a + b).drop_last() =~= a + b.drop_last());
        assert((a + b).last() == b.last());
    }
}

proof fn lemma_count_bounds(s: Seq<ScoreRow>, x: i32)
    ensures
        (forall|i: int| 0 <= i < s.len() ==> s[i].1 >= x) ==> count_at_least(s, x) == s.len(),
        (forall|i: int| 0 <= i < s.len() ==> s[i].1 < x) ==> count_at_least(s, x) == 0,
    decreases s.len(),
{
    if s.len() > 0 {
        lemma_count_bounds(s.drop_last(), x);
        assert forall|i: int| 0 <= i < s.drop_last().len() implies s.drop_last()[i] == s[i] by {}
        assert(s.last() == s[s.len() - 1]);
    }
}

/// In rows ordered by descending score, a row's place is behind exactly the
/// rows that score at least as much.
proof fn lemma_insert_pos_count(t: Seq<ScoreRow>, e: ScoreRow)
    requires
        descending(t),
    ensures
        insert_pos(t, e) == count_at_least(t, e.1),
{
    lemma_insert_pos(t, e);
    let p = insert_pos(t, e) as int;
    let a = t.take(p);
    let b = t.skip(p);
    assert(t =~= a + b);
    lemma_count_add(a, b, e.1);
    assert forall|i: int| 0 <= i < a.len() implies a[i].1 >= e.1 by {
        assert(a[i] == t[i]);
    }
    assert forall|i: int| 0 <= i < b.len() implies b[i].1 < e.1 by {
        assert(b[i] == t[p + i]);
        assert(t[p].1 >= t[p + i].1);
    }
    lemma_count_bounds(a, e.1);
    lemma_count_bounds(b, e.1);
}

/// Sorting keeps how many rows score at least `x`.
proof fn lemma_count_sort(rows: Seq<ScoreRow>, x: i32)
    ensures
        count_at_least(sort_by_score(rows), x) == count_at_least(rows, x),
    decreases rows.len(),
{
    if rows.len() > 0 {
        let init = rows.drop_last();
        let e = rows.last();
        let t = sort_by_score(init);
        lemma_count_sort(init, x);
        lemma_sort_permutation(init);
        lemma_insert_pos(t, e);
        let p = insert_pos(t, e) as int;
        let a = t.take(p);
        let b = t.skip(p);
        assert(t =~= a + b);
        lemma_count_add(a, b, x);
        lemma_count_add(a, seq![e], x);
        lemma_count_add(a + seq![e], b, x);
        assert(seq![e].drop_last() =~= Seq::<ScoreRow>::empty());
        assert(seq![e].last() == e);
        assert(count_at_least(Seq::<ScoreRow>::empty(), x) == 0);
        assert(count_at_least(seq![e], x) == (if e.1 >= x {
            1nat
        } else {
            0nat
        }));
        assert(sort_by_score(rows) == a + seq![e] + b);
        assert(count_at_least(rows, x) == count_at_least(init, x) + count_at_least(seq![e], x));
    }
}

/// A row added after the others takes its place in the sorted rows behind
/// exactly the earlier rows that score at least as much; it is shown in the
/// table exactly when fewer than ten of them do.
pub proof fn lemma_new_row_place(rows: Seq<ScoreRow>, e: ScoreRow)
    ensures
        count_at_least(rows, e.1) <= rows.len(),
        sort_by_score(rows.push(e))[count_at_least(rows, e.1) as int] == e,
        (count_at_least(rows, e.1) < shown_rows(rows.push(e)).len()) <==> (count_at_least(rows, e.1)
            < 10),
        count_at_least(rows, e.1) < 10 ==> shown_rows(rows.push(e))[count_at_least(
            rows,
            e.1,
        ) as int] == e,
{
    let all = rows.push(e);
    let t = sort_by_score(rows);
    assert(all.drop_last() =~= rows);
    assert(all.last() == e);
    lemma_sort_descending(rows);
    lemma_sort_permutation(rows);
    lemma_sort_permutation(all);
    lemma_count_sort(rows, e.1);
    lemma_insert_pos_count(t, e);
    lemma_insert_pos(t, e);
    let k = count_at_least(rows, e.1) as int;
    assert(sort_by_score(all) == t.take(k) + seq![e] + t.skip(k));
    assert(sort_by_score(all)[k] == e);
}

/// A player's recorded result is shown in the table read back from the file
/// exactly when fewer than ten earlier results score at least as much; it is
/// then the table line after the rows of those results.
pub proof fn lemma_recorded_row_shown(
    content: Seq<char>,
    name: Seq<char>,
    score: i32,
    level: i32,
    timestamp: u64,
)
    requires
        content.len() == 0 || content.last() == '\n',
        !name.contains(';'),
        !name.contains('\n'),
    ensures
        ({
            let after = content + record_line(name, score, level, timestamp).push('\n');
            let k = count_at_least(highscore_rows(content), score);
            let rows = highscore_rows(after);
            &&& sort_by_score(rows)[k as int] == (name, score, level)
            &&& (k < shown_rows(rows).len() <==> k < 10)
            &&& k < 10 ==> shown_rows(rows)[k as int] == (name, score, level)
                && highscore_table(after)[4 + k as int] == score_line(
                (name, score, level),
                table_padding(rows),
            )
        }),
{
    let e = (name, score, level);
    lemma_record_read_back(content, name, score, level, timestamp);
    lemma_new_row_place(highscore_rows(content), e);
    let after = content + record_line(name, score, level, timestamp).push('\n');
    let rows = highscore_rows(after);
    let k = count_at_least(highscore_rows(content), score);
    if k < 10 {
        let p = table_padding(rows);
        let mapped = shown_rows(rows).map_values(|r: ScoreRow| score_line(r, p));
        assert(mapped[k as int] == score_line(e, p));
        let head = seq![" Top 10 highscores:"@, rule_line(p), header_line(p), rule_line(p)];
        assert((head + mapped + seq![rule_line(p)])[4 + k as int] == mapped[k as int]);
    }
}

} // verus!
