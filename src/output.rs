use vstd::prelude::*;

use crate::stats::{sort_desc, sorted_desc, FileStats};
use vstd::string::StringExecFns;

verus! {

/// The decimal digit for `d` (below ten).
pub open spec fn digit(d: nat) -> char {
    if d == 0 {
        '0'
    } else if d == 1 {
        '1'
    } else if d == 2 {
        '2'
    } else if d == 3 {
        '3'
    } else if d == 4 {
        '4'
    } else if d == 5 {
        '5'
    } else if d == 6 {
        '6'
    } else if d == 7 {
        '7'
    } else if d == 8 {
        '8'
    } else {
        '9'
    }
}

/// `n` written in decimal, without leading zeros.
pub open spec fn decimal(n: nat) -> Seq<char>
    decreases n,
{
    if n < 10 {
        seq![digit(n)]
    } else {
        decimal(n / 10).push(digit(n % 10))
    }
}

/// The pieces of `s` between line feeds; there is always at least one.
pub open spec fn split_nl(s: Seq<char>) -> Seq<Seq<char>>
    decreases s.len(),
{
    if s.len() == 0 {
        seq![Seq::<char>::empty()]
    } else if s.last() == '\n' {
        split_nl(s.drop_last()).push(Seq::<char>::empty())
    } else {
        let p = split_nl(s.drop_last());
        p.update(p.len() - 1, p.last().push(s.last()))
    }
}

/// A line without its trailing carriage return, if it has one.
pub open spec fn strip_cr(l: Seq<char>) -> Seq<char> {
    if l.len() > 0 && l.last() == '\r' {
        l.drop_last()
    } else {
        l
    }
}

/// The lines of `s` as a line iterator reads them: split at line feeds, a
/// carriage return dropped from the end of each line that a line feed ends,
/// and no empty last line.
pub open spec fn text_lines(s: Seq<char>) -> Seq<Seq<char>> {
    let p = split_nl(s);
    let ended = p.drop_last().map_values(|l: Seq<char>| strip_cr(l));
    if p.last().len() == 0 {
        ended
    } else {
        ended.push(p.last())
    }
}

/// The line that frames each file's content: eighty dashes.
pub open spec fn separator() -> Seq<char> {
    Seq::new(80, |i: int| '-')
}

/// The views of a sequence of character vectors.
pub open spec fn char_lines(v: Seq<Vec<char>>) -> Seq<Seq<char>> {
    v.map_values(|x: Vec<char>| x@)
}

/// The views of a sequence of strings.
pub open spec fn string_lines(v: Seq<String>) -> Seq<Seq<char>> {
    v.map_values(|x: String| x@)
}

/// Relies on std's `str::chars`, collected into a `Vec`: the characters of
/// `s`, in order.
#[verifier::external_body]
pub(crate) fn chars_of(s: &str) -> (r: Vec<char>)
    ensures
        r@ == s@,
{
    s.chars().collect()
}

/// Relies on std's `FromIterator<char>` for `String`: the string of the
/// characters of `v`, in order.
#[verifier::external_body]
pub(crate) fn string_of(v: &Vec<char>) -> (r: String)
    ensures
        r@ == v@,
{
    v.iter().collect()
}

fn digit_char(d: usize) -> (c: char)
    requires
        d < 10,
    ensures
        c == digit(d as nat),
{
    if d == 0 {
        '0'
    } else if d == 1 {
        '1'
    } else if d == 2 {
        '2'
    } else if d == 3 {
        '3'
    } else if d == 4 {
        '4'
    } else if d == 5 {
        '5'
    } else if d == 6 {
        '6'
    } else if d == 7 {
        '7'
    } else if d == 8 {
        '8'
    } else {
        '9'
    }
}

fn push_decimal(n: usize, out: &mut Vec<char>)
    ensures
        final(out)@ == old(out)@ + decimal(n as nat),
    decreases n,
{
    if n >= 10 {
        push_decimal(n / 10, out);
    }
    out.push(digit_char(n % 10));
    assert(n < 10 ==> n % 10 == n);
}

/// `n` written in decimal.
pub fn decimal_string(n: usize) -> (r: String)
    ensures
        r@ == decimal(n as nat),
{
    let mut v: Vec<char> = Vec::new();
    push_decimal(n, &mut v);
    assert(v@ == decimal(n as nat));
    string_of(&v)
}

/// The lines of `s`, as a line iterator reads them.
pub fn split_lines(s: &str) -> (r: Vec<Vec<char>>)
    ensures
        char_lines(r@) == text_lines(s@),
{
    let cs = chars_of(s);
    let mut done: Vec<Vec<char>> = Vec::new();
    let mut cur: Vec<char> = Vec::new();
    let mut i: usize = 0;
    assert(cs@.take(0) == Seq::<char>::empty());
    assert(char_lines(done@).push(cur@) == split_nl(cs@.take(0)));
    while i < cs.len()
        invariant
            i <= cs@.len(),
            cs@ == s@,
            char_lines(done@).push(cur@) == split_nl(cs@.take(i as int)),
        decreases cs.len() - i,
    {
        let c = cs[i];
        assert(cs@.take(i as int + 1).drop_last() == cs@.take(i as int));
        assert(cs@.take(i as int + 1).last() == c);
        let ghost od = char_lines(done@);
        let ghost oc = cur@;
        if c == '\n' {
            let finished = cur;
            cur = Vec::new();
            done.push(finished);
            assert(char_lines(done@) == od.push(oc));
        } else {
            cur.push(c);
            assert(char_lines(done@).push(cur@) =~= od.push(oc).update(od.len() as int, oc.push(c)));
        }
        i = i + 1;
    }
    assert(cs@.take(cs@.len() as int) == cs@);
    let ghost q = char_lines(done@);
    assert(split_nl(s@).drop_last() == q);
    assert(split_nl(s@).last() == cur@);
    let mut r: Vec<Vec<char>> = Vec::new();
    let mut j: usize = 0;
    while j < done.len()
        invariant
            j <= done@.len(),
            q == char_lines(done@),
            char_lines(r@) == q.take(j as int).map_values(|l: Seq<char>| strip_cr(l)),
        decreases done.len() - j,
    {
        let mut line = done[j].clone();
        assert(line@ == q[j as int]);
        if line.len() > 0 && line[line.len() - 1] == '\r' {
            line.pop();
        }
        let ghost or = char_lines(r@);
        r.push(line);
        assert(char_lines(r@) == or.push(strip_cr(q[j as int])));
        assert(q.take(j as int + 1).map_values(|l: Seq<char>| strip_cr(l)) =~= q.take(
            j as int,
        ).map_values(|l: Seq<char>| strip_cr(l)).push(strip_cr(q[j as int])));
        j = j + 1;
    }
    assert(q.take(q.len() as int) == q);
    if cur.len() > 0 {
        let ghost ended = char_lines(r@);
        r.push(cur);
        assert(char_lines(r@) == ended.push(split_nl(s@).last()));
    }
    r
}

fn dashes() -> (r: String)
    ensures
        r@ == separator(),
{
    let mut v: Vec<char> = Vec::new();
    let mut i: usize = 0;
    while i < 80
        invariant
            i <= 80,
            v@.len() == i,
            forall|k: int| 0 <= k < i ==> v@[k] == '-',
        decreases 80 - i,
    {
        v.push('-');
        i = i + 1;
    }
    assert(v@ == separator());
    string_of(&v)
}

/// The record of one file in the content section: a header with its path, a
/// separator, its lines numbered from one as `<n> | <line>` (or one line
/// telling why it could not be read), a separator and a blank line.
pub fn content_block(path: &str, content: &Result<String, String>) -> (r: Vec<String>)
    ensures
        r@.len() >= 4,
        r@[0]@ == path@ + seq![':'],
        r@[1]@ == separator(),
        r@[r@.len() - 2]@ == separator(),
        r@.last()@.len() == 0,
        content is Ok ==> r@.len() == text_lines(content->Ok_0@).len() + 4 && forall|i: int|
            0 <= i < text_lines(content->Ok_0@).len() ==> #[trigger] r@[i + 2]@ == decimal(
                (i + 1) as nat,
            ) + seq![' ', '|', ' '] + text_lines(content->Ok_0@)[i],
        content is Err ==> r@.len() == 5 && r@[2]@ == "Error reading file: "@ + content->Err_0@,
{
    let mut r: Vec<String> = Vec::new();
    proof {
        reveal_strlit(":");
        reveal_strlit(" | ");
    }
    r.push(String::from_str(path).concat(":"));
    r.push(dashes());
    match content {
        Ok(text) => {
            let lines = split_lines(text.as_str());
            let ghost tl = text_lines(text@);
            let mut i: usize = 0;
            while i < lines.len()
                invariant
                    i <= lines@.len(),
                    char_lines(lines@) == tl,
                    tl == text_lines(text@),
                    r@.len() == i + 2,
                    r@[0]@ == path@ + seq![':'],
                    r@[1]@ == separator(),
                    forall|k: int|
                        0 <= k < i ==> #[trigger] r@[k + 2]@ == decimal((k + 1) as nat) + seq![
                            ' ',
                            '|',
                            ' ',
                        ] + tl[k],
                decreases lines.len() - i,
            {
                assert(lines@[i as int]@ == tl[i as int]);
                let body = string_of(&lines[i]);
                let row = decimal_string(i + 1).concat(" | ").concat(body.as_str());
                proof {
                    reveal_strlit(" | ");
                    assert(" | "@ =~= seq![' ', '|', ' ']);
                    assert(body@ == tl[i as int]);
                }
                assert(row@ == decimal((i + 1) as nat) + seq![' ', '|', ' '] + tl[i as int]);
                let ghost before = r@;
                r.push(row);
                assert forall|k: int| 0 <= k < i + 1 implies #[trigger] r@[k + 2]@ == decimal(
                    (k + 1) as nat,
                ) + seq![' ', '|', ' '] + tl[k] by {
                    if k < i {
                        assert(r@[k + 2] == before[k + 2]);
                    }
                }
                i = i + 1;
            }
        },
        Err(e) => {
            r.push(String::from_str("Error reading file: ").concat(e.as_str()));
        },
    }
    r.push(dashes());
    r.push(String::new());
    r
}

/// How an extension is shown: itself, or `[no extension]` when it is empty.
pub open spec fn ext_label(e: Seq<char>) -> Seq<char> {
    if e.len() == 0 {
        "[no extension]"@
    } else {
        e
    }
}

/// The row of one extension: two spaces, its label, a colon, the value and
/// the unit.
pub open spec fn row_text(row: (String, usize), unit: Seq<char>) -> Seq<char> {
    "  "@ + ext_label(row.0@) + ": "@ + decimal(row.1 as nat) + unit
}

/// A table of the report: nothing when there are no rows, else a blank line,
/// the title and a row per entry.
pub open spec fn table_text(title: Seq<char>, rows: Seq<(String, usize)>, unit: Seq<char>) -> Seq<
    Seq<char>,
> {
    if rows.len() == 0 {
        Seq::empty()
    } else {
        seq![Seq::<char>::empty(), title] + rows.map_values(
            |row: (String, usize)| row_text(row, unit),
        )
    }
}

/// The statistics section: a header, the three totals, then the file and
/// line tables, each ordered by value, largest first.
pub open spec fn statistics_text(
    files: usize,
    dirs: usize,
    lines: usize,
    counts: Seq<(String, usize)>,
    line_table: Seq<(String, usize)>,
) -> Seq<Seq<char>> {
    seq![
        "Project Statistics"@,
        "=================="@,
        "Total files: "@ + decimal(files as nat),
        "Total directories: "@ + decimal(dirs as nat),
        "Total lines of code: "@ + decimal(lines as nat),
    ] + table_text("File types:"@, sort_desc(counts), " files"@) + table_text(
        "Lines of code by file type:"@,
        sort_desc(line_table),
        " lines"@,
    )
}

fn push_table(out: &mut Vec<String>, title: &str, table: &Vec<(String, usize)>, unit: &str)
    ensures
        string_lines(final(out)@) == string_lines(old(out)@) + table_text(
            title@,
            sort_desc(table@),
            unit@,
        ),
{
    let rows = sorted_desc(table);
    if rows.len() == 0 {
        assert(string_lines(out@) + table_text(title@, sort_desc(table@), unit@) =~= string_lines(
            out@,
        ));
        return;
    }
    let ghost start = string_lines(out@);
    out.push(String::new());
    out.push(String::from_str(title));
    assert(string_lines(out@) == start + seq![Seq::<char>::empty(), title@]);
    let mut i: usize = 0;
    while i < rows.len()
        invariant
            i <= rows@.len(),
            string_lines(out@) == start + seq![Seq::<char>::empty(), title@] + rows@.take(
                i as int,
            ).map_values(|row: (String, usize)| row_text(row, unit@)),
        decreases rows.len() - i,
    {
        let ghost before = string_lines(out@);
        let name = if rows[i].0.as_str().is_empty() {
            String::from_str("[no extension]")
        } else {
            rows[i].0.clone()
        };
        assert(name@ == ext_label(rows@[i as int].0@));
        let line = String::from_str("  ").concat(name.as_str()).concat(": ").concat(
            decimal_string(rows[i].1).as_str(),
        ).concat(unit);
        out.push(line);
        assert(string_lines(out@) == before.push(row_text(rows@[i as int], unit@)));
        assert(rows@.take(i as int + 1).map_values(|row: (String, usize)| row_text(row, unit@))
            =~= rows@.take(i as int).map_values(|row: (String, usize)| row_text(row, unit@)).push(
            row_text(rows@[i as int], unit@),
        ));
        i = i + 1;
    }
    assert(rows@.take(rows@.len() as int) == rows@);
}

/// The lines of the statistics section for `stats`.
pub fn statistics_lines(stats: &FileStats) -> (r: Vec<String>)
    ensures
        string_lines(r@) == statistics_text(
            stats.total_files,
            stats.total_directories,
            stats.total_lines,
            stats.extension_counts@,
            stats.extension_lines@,
        ),
{
    let mut r: Vec<String> = Vec::new();
    r.push(String::from_str("Project Statistics"));
    r.push(String::from_str("=================="));
    r.push(String::from_str("Total files: ").concat(decimal_string(stats.total_files).as_str()));
    r.push(
        String::from_str("Total directories: ").concat(
            decimal_string(stats.total_directories).as_str(),
        ),
    );
    r.push(
        String::from_str("Total lines of code: ").concat(decimal_string(stats.total_lines).as_str()),
    );
    assert(string_lines(r@) == seq![
        "Project Statistics"@,
        "=================="@,
        "Total files: "@ + decimal(stats.total_files as nat),
        "Total directories: "@ + decimal(stats.total_directories as nat),
        "Total lines of code: "@ + decimal(stats.total_lines as nat),
    ]);
    push_table(&mut r, "File types:", &stats.extension_counts, " files");
    push_table(&mut r, "Lines of code by file type:", &stats.extension_lines, " lines");
    r
}

} // verus!
