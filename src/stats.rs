use vstd::prelude::*;

use crate::output::{chars_of, string_of};

verus! {

/// What the statistics need of one accepted file: the directory that holds it,
/// its extension (empty when it has none) and, where the file could be read,
/// its number of lines.
pub struct FileSample {
    pub parent: String,
    pub extension: String,
    pub lines: Option<usize>,
}

/// Aggregate counters over the accepted files. Each table holds one entry per
/// extension, in the order in which the extensions were first seen.
pub struct FileStats {
    pub total_files: usize,
    pub total_directories: usize,
    pub total_lines: usize,
    pub extension_counts: Vec<(String, usize)>,
    pub extension_lines: Vec<(String, usize)>,
}

/// Number of lines in `b`: each line terminator ends a line, and a non-empty
/// tail without a terminator is one more line.
pub open spec fn line_count(b: Seq<u8>) -> nat {
    newlines(b) + if b.len() > 0 && b.last() != 10u8 { 1nat } else { 0nat }
}

/// Number of newline bytes in `b`.
pub open spec fn newlines(b: Seq<u8>) -> nat
    decreases b.len(),
{
    if b.len() == 0 {
        0
    } else {
        newlines(b.drop_last()) + if b.last() == 10u8 { 1nat } else { 0nat }
    }
}

/// Files of `s` that were read, with extension `e`.
pub open spec fn ext_files(s: Seq<FileSample>, e: Seq<char>) -> nat
    decreases s.len(),
{
    if s.len() == 0 {
        0
    } else {
        ext_files(s.drop_last(), e) + if s.last().lines is Some && s.last().extension@ == e {
            1nat
        } else {
            0nat
        }
    }
}

/// Lines of the files of `s` that were read, with extension `e`.
pub open spec fn ext_lines(s: Seq<FileSample>, e: Seq<char>) -> nat
    decreases s.len(),
{
    if s.len() == 0 {
        0
    } else {
        ext_lines(s.drop_last(), e) + match s.last().lines {
            Some(n) if s.last().extension@ == e => n as nat,
            _ => 0nat,
        }
    }
}

/// Lines of all the files of `s` that were read.
pub open spec fn read_lines(s: Seq<FileSample>) -> nat
    decreases s.len(),
{
    if s.len() == 0 {
        0
    } else {
        read_lines(s.drop_last()) + match s.last().lines {
            Some(n) => n as nat,
            None => 0nat,
        }
    }
}

/// Files of `s` that could not be read.
pub open spec fn unread_files(s: Seq<FileSample>) -> nat
    decreases s.len(),
{
    if s.len() == 0 {
        0
    } else {
        unread_files(s.drop_last()) + if s.last().lines is None { 1nat } else { 0nat }
    }
}

/// The distinct directories that hold the files of `s`.
pub open spec fn parent_dirs(s: Seq<FileSample>) -> Set<Seq<char>> {
    s.map_values(|f: FileSample| f.parent@).to_set()
}

/// Sum of the values of a table.
pub open spec fn table_sum(t: Seq<(String, usize)>) -> nat
    decreases t.len(),
{
    if t.len() == 0 {
        0
    } else {
        table_sum(t.drop_last()) + t.last().1 as nat
    }
}

/// The extensions that a table lists, in its order.
pub open spec fn table_keys(t: Seq<(String, usize)>) -> Seq<Seq<char>> {
    t.map_values(|p: (String, usize)| p.0@)
}

/// `t` lists once each extension of a file of `s` that was read, with the
/// number of such files.
pub open spec fn is_count_table(t: Seq<(String, usize)>, s: Seq<FileSample>) -> bool {
    &&& table_keys(t).no_duplicates()
    &&& forall|i: int|
        #![trigger t[i]]
        0 <= i < t.len() ==> t[i].1 as nat == ext_files(s, t[i].0@) && ext_files(s, t[i].0@) > 0
    &&& forall|e: Seq<char>| #[trigger] ext_files(s, e) > 0 ==> table_keys(t).contains(e)
}

/// `t` lists the extensions `keys`, in that order, each with the number of lines
/// of the files of `s` that were read and have it.
pub open spec fn is_line_table(
    t: Seq<(String, usize)>,
    keys: Seq<Seq<char>>,
    s: Seq<FileSample>,
) -> bool {
    &&& table_keys(t) == keys
    &&& forall|i: int| #![trigger t[i]] 0 <= i < t.len() ==> t[i].1 as nat == ext_lines(s, t[i].0@)
}

impl FileStats {
    /// The counters that the files of `s` give.
    pub open spec fn describes(&self, s: Seq<FileSample>) -> bool {
        &&& self.total_files as nat == s.len()
        &&& self.total_directories as nat == parent_dirs(s).len()
        &&& self.total_lines as nat == read_lines(s)
        &&& is_count_table(self.extension_counts@, s)
        &&& is_line_table(self.extension_lines@, table_keys(self.extension_counts@), s)
    }
}

proof fn lemma_table_sum_set(t: Seq<(String, usize)>, j: int, p: (String, usize))
    requires
        0 <= j < t.len(),
    ensures
        table_sum(t.update(j, p)) + t[j].1 == table_sum(t) + p.1,
    decreases t.len(),
{
    if j < t.len() - 1 {
        assert(t.update(j, p).drop_last() == t.drop_last().update(j, p));
        lemma_table_sum_set(t.drop_last(), j, p);
    } else {
        assert(t.update(j, p).drop_last() == t.drop_last());
    }
}

proof fn lemma_table_entry_le_sum(t: Seq<(String, usize)>, j: int)
    requires
        0 <= j < t.len(),
    ensures
        t[j].1 <= table_sum(t),
    decreases t.len(),
{
    if j < t.len() - 1 {
        lemma_table_entry_le_sum(t.drop_last(), j);
    }
}

proof fn lemma_read_lines_prefix(s: Seq<FileSample>, i: int)
    requires
        0 <= i <= s.len(),
    ensures
        read_lines(s.take(i)) <= read_lines(s),
    decreases s.len() - i,
{
    if i < s.len() {
        assert(s.take(i + 1).drop_last() == s.take(i));
        lemma_read_lines_prefix(s, i + 1);
    } else {
        assert(s.take(i) == s);
    }
}

/// Number of lines in the bytes of a file, as a line iterator reads them.
pub fn count_lines(b: &[u8]) -> (r: usize)
    ensures
        r as nat == line_count(b@),
{
    let mut n: usize = 0;
    let mut i: usize = 0;
    while i < b.len()
        invariant
            i <= b@.len(),
            n as nat == newlines(b@.take(i as int)),
            n <= i,
        decreases b.len() - i,
    {
        assert(b@.take(i as int + 1).drop_last() == b@.take(i as int));
        if b[i] == 10u8 {
            n = n + 1;
        }
        i = i + 1;
    }
    assert(b@.take(b@.len() as int) == b@);
    if b.len() > 0 && b[b.len() - 1] != 10u8 {
        proof {
            lemma_newlines_bound(b@);
        }
        n + 1
    } else {
        n
    }
}

proof fn lemma_newlines_bound(b: Seq<u8>)
    ensures
        newlines(b) <= b.len(),
        b.len() > 0 && b.last() != 10u8 ==> newlines(b) < b.len(),
    decreases b.len(),
{
    if b.len() > 0 {
        lemma_newlines_bound(b.drop_last());
    }
}

proof fn lemma_ext_step(q: Seq<FileSample>)
    requires
        q.len() > 0,
    ensures
        forall|e: Seq<char>|
            #[trigger] ext_files(q, e) == ext_files(q.drop_last(), e) + if q.last().lines is Some
                && q.last().extension@ == e {
                1nat
            } else {
                0nat
            },
        forall|e: Seq<char>|
            #[trigger] ext_lines(q, e) == ext_lines(q.drop_last(), e) + match q.last().lines {
                Some(n) if q.last().extension@ == e => n as nat,
                _ => 0nat,
            },
{
}

proof fn lemma_no_files_no_lines(s: Seq<FileSample>, e: Seq<char>)
    requires
        ext_files(s, e) == 0,
    ensures
        ext_lines(s, e) == 0,
    decreases s.len(),
{
    if s.len() > 0 {
        lemma_no_files_no_lines(s.drop_last(), e);
    }
}

proof fn lemma_push_unique(a: Seq<Seq<char>>, x: Seq<char>)
    requires
        a.no_duplicates(),
        !a.contains(x),
    ensures
        a.push(x).no_duplicates(),
{
    let b = a.push(x);
    assert forall|i: int, j: int| 0 <= i < b.len() && 0 <= j < b.len() && i != j implies b[i]
        != b[j] by {
        if i == a.len() {
            assert(a[j] == b[j]);
        } else if j == a.len() {
            assert(a[i] == b[i]);
        }
    }
}

fn find_key(t: &Vec<(String, usize)>, e: &String) -> (r: Option<usize>)
    ensures
        match r {
            Some(j) => j < t@.len() && t@[j as int].0@ == e@,
            None => !table_keys(t@).contains(e@),
        },
{
    let mut j: usize = 0;
    while j < t.len()
        invariant
            j <= t@.len(),
            forall|k: int| 0 <= k < j ==> t@[k].0@ != e@,
        decreases t.len() - j,
    {
        if t[j].0 == *e {
            return Some(j);
        }
        j = j + 1;
    }
    proof {
        if table_keys(t@).contains(e@) {
            let k = choose|k: int| 0 <= k < t@.len() && #[trigger] table_keys(t@)[k] == e@;
            assert(t@[k].0@ != e@);
        }
    }
    None
}

/// The texts of a sequence of strings.
pub open spec fn texts(v: Seq<String>) -> Seq<Seq<char>> {
    v.map_values(|s: String| s@)
}

fn contains_text(v: &Vec<String>, x: &String) -> (r: bool)
    ensures
        r == texts(v@).contains(x@),
{
    let mut j: usize = 0;
    while j < v.len()
        invariant
            j <= v@.len(),
            forall|k: int| 0 <= k < j ==> v@[k]@ != x@,
        decreases v.len() - j,
    {
        if v[j] == *x {
            assert(texts(v@)[j as int] == x@);
            return true;
        }
        j = j + 1;
    }
    proof {
        if texts(v@).contains(x@) {
            let k = choose|k: int|
                0 <= k < v@.len() && #[trigger] texts(v@)[k] == x@;
            assert(v@[k]@ != x@);
        }
    }
    false
}

/// Totals over the accepted files: how many there are, how many distinct
/// directories hold them, and, over those that were read, their lines in all
/// and the files and lines of each extension. The lines of all the files
/// that were read equal the sum of the line table, and the files that were
/// read equal the sum of the count table.
pub fn collect_stats(samples: &[FileSample]) -> (r: FileStats)
    requires
        read_lines(samples@) <= usize::MAX,
    ensures
        r.describes(samples@),
        r.total_lines as nat == table_sum(r.extension_lines@),
        r.total_files as nat == table_sum(r.extension_counts@) + unread_files(samples@),
{
    let ghost s = samples@;
    let mut counts: Vec<(String, usize)> = Vec::new();
    let mut lines: Vec<(String, usize)> = Vec::new();
    let mut dirs: Vec<String> = Vec::new();
    let mut total: usize = 0;
    let mut i: usize = 0;
    while i < samples.len()
        invariant
            i <= s.len(),
            s == samples@,
            read_lines(s) <= usize::MAX,
            is_count_table(counts@, s.take(i as int)),
            is_line_table(lines@, table_keys(counts@), s.take(i as int)),
            total as nat == read_lines(s.take(i as int)),
            table_sum(lines@) == read_lines(s.take(i as int)),
            table_sum(counts@) + unread_files(s.take(i as int)) == i,
            texts(dirs@).no_duplicates(),
            texts(dirs@).to_set() == parent_dirs(s.take(i as int)),
        decreases samples.len() - i,
    {
        let ghost p = s.take(i as int);
        let ghost q = s.take(i as int + 1);
        assert(q.drop_last() == p);
        proof {
            lemma_read_lines_prefix(s, i as int + 1);
            lemma_ext_step(q);
        }
        let f = &samples[i];
        assert(q.last() == *f);
        if !contains_text(&dirs, &f.parent) {
            let ghost od = texts(dirs@);
            dirs.push(f.parent.clone());
            proof {
                assert(texts(dirs@) == od.push(f.parent@));
                lemma_push_unique(od, f.parent@);
                Seq::lemma_to_set_insert_commutes(od, f.parent@);
                assert(od.push(f.parent@) == od + seq![f.parent@]);
            }
        }
        proof {
            assert(q.map_values(|g: FileSample| g.parent@) == p.map_values(
                |g: FileSample| g.parent@,
            ).push(f.parent@));
            let pm = p.map_values(|g: FileSample| g.parent@);
            Seq::lemma_to_set_insert_commutes(pm, f.parent@);
            assert(pm.push(f.parent@) == pm + seq![f.parent@]);
        }
        match f.lines {
            None => {},
            Some(n) => {
                match find_key(&counts, &f.extension) {
                    Some(j) => {
                        proof {
                            lemma_table_entry_le_sum(counts@, j as int);
                            lemma_table_entry_le_sum(lines@, j as int);
                            assert(table_keys(lines@)[j as int] == table_keys(counts@)[j as int]);
                        }
                        let c = counts[j].1;
                        let l = lines[j].1;
                        let key = counts[j].0.clone();
                        let key2 = counts[j].0.clone();
                        let ghost oc = counts@;
                        let ghost ol = lines@;
                        counts.set(j, (key, c + 1));
                        lines.set(j, (key2, l + n));
                        total = total + n;
                        proof {
                            lemma_table_sum_set(oc, j as int, counts@[j as int]);
                            lemma_table_sum_set(ol, j as int, lines@[j as int]);
                            assert(table_keys(counts@) == table_keys(oc));
                            assert(table_keys(lines@) == table_keys(ol));
                            assert forall|e: Seq<char>| #[trigger]
                                ext_files(q, e) > 0 implies table_keys(counts@).contains(e) by {
                                if e != f.extension@ {
                                    assert(ext_files(p, e) > 0);
                                }
                            }
                            assert forall|k: int| #![trigger counts@[k]] 0 <= k < counts@.len() implies
                                counts@[k].1 as nat == ext_files(q, counts@[k].0@) && ext_files(
                                    q,
                                    counts@[k].0@,
                                ) > 0 && lines@[k].1 as nat == ext_lines(q, lines@[k].0@) by {
                                assert(table_keys(oc)[k] == oc[k].0@);
                                assert(table_keys(ol)[k] == table_keys(oc)[k]);
                                assert(table_keys(ol)[k] == ol[k].0@);
                                assert(table_keys(lines@)[k] == lines@[k].0@);
                                assert(table_keys(counts@)[k] == counts@[k].0@);
                                if k != j {
                                    assert(table_keys(oc)[k] != table_keys(oc)[j as int]);
                                }
                            }
                            assert(is_count_table(counts@, q));
                            assert forall|k: int| #![trigger lines@[k]] 0 <= k < lines@.len() implies
                                lines@[k].1 as nat == ext_lines(q, lines@[k].0@) by {
                                assert(table_keys(lines@)[k] == table_keys(counts@)[k]);
                                assert(counts@[k] == counts@[k]);
                            }
                        }
                    },
                    None => {
                        let ghost oc = counts@;
                        let ghost ol = lines@;
                        counts.push((f.extension.clone(), 1));
                        lines.push((f.extension.clone(), n));
                        total = total + n;
                        proof {
                            assert(counts@.drop_last() == oc);
                            assert(lines@.drop_last() == ol);
                            assert(table_keys(counts@) == table_keys(oc).push(f.extension@));
                            assert(table_keys(lines@) == table_keys(ol).push(f.extension@));
                            assert forall|k: int| 0 <= k < oc.len() implies #[trigger]
                                table_keys(oc)[k] != f.extension@ by {
                                assert(table_keys(oc).contains(table_keys(oc)[k]));
                            }
                            lemma_push_unique(table_keys(oc), f.extension@);
                            assert(counts@.last().0@ == f.extension@);
                            assert(table_keys(counts@)[oc.len() as int] == f.extension@);
                            assert forall|e: Seq<char>| #[trigger]
                                ext_files(q, e) > 0 implies table_keys(counts@).contains(e) by {
                                if e != f.extension@ {
                                    assert(ext_files(p, e) > 0);
                                    let k = choose|k: int|
                                        0 <= k < oc.len() && #[trigger] table_keys(oc)[k] == e;
                                    assert(table_keys(counts@)[k] == e);
                                }
                            }
                            assert forall|k: int| #![trigger counts@[k]] 0 <= k < counts@.len() implies
                                counts@[k].1 as nat == ext_files(q, counts@[k].0@) && ext_files(
                                    q,
                                    counts@[k].0@,
                                ) > 0 && lines@[k].1 as nat == ext_lines(q, lines@[k].0@) by {
                                if k == oc.len() {
                                    assert(ext_files(p, f.extension@) == 0);
                                    assert(ext_lines(p, f.extension@) == 0) by {
                                        lemma_no_files_no_lines(p, f.extension@);
                                    }
                                } else {
                                    assert(table_keys(oc)[k] == oc[k].0@);
                                    assert(table_keys(ol)[k] == table_keys(oc)[k]);
                                assert(table_keys(ol)[k] == ol[k].0@);
                                assert(table_keys(lines@)[k] == lines@[k].0@);
                                assert(table_keys(counts@)[k] == counts@[k].0@);
                                    assert(table_keys(oc)[k] != f.extension@);
                                }
                            }
                            assert(is_count_table(counts@, q));
                            assert forall|k: int| #![trigger lines@[k]] 0 <= k < lines@.len() implies
                                lines@[k].1 as nat == ext_lines(q, lines@[k].0@) by {
                                assert(table_keys(lines@)[k] == table_keys(counts@)[k]);
                                assert(counts@[k] == counts@[k]);
                            }
                        }
                    },
                }
            },
        }
        i = i + 1;
    }
    assert(s.take(s.len() as int) == s);
    proof {
        texts(dirs@).unique_seq_to_set();
    }
    FileStats {
        total_files: samples.len(),
        total_directories: dirs.len(),
        total_lines: total,
        extension_counts: counts,
        extension_lines: lines,
    }
}

/// Where a row of value `v` goes in rows ordered largest first: after every
/// leading row whose value is at least `v`.
pub open spec fn insert_pos(r: Seq<(String, usize)>, v: usize) -> int
    decreases r.len(),
{
    if r.len() == 0 {
        0
    } else if r[0].1 < v {
        0
    } else {
        1 + insert_pos(r.drop_first(), v)
    }
}

/// The rows of `t` ordered by value, largest first, each row placed after the
/// earlier rows of equal value: a stable sort.
pub open spec fn sort_desc(t: Seq<(String, usize)>) -> Seq<(String, usize)>
    decreases t.len(),
{
    if t.len() == 0 {
        t
    } else {
        let r = sort_desc(t.drop_last());
        r.insert(insert_pos(r, t.last().1), t.last())
    }
}

proof fn lemma_insert_pos(r: Seq<(String, usize)>, v: usize, k: int)
    requires
        0 <= k <= r.len(),
        forall|p: int| 0 <= p < k ==> r[p].1 >= v,
        k == r.len() || r[k].1 < v,
    ensures
        insert_pos(r, v) == k,
    decreases r.len(),
{
    if k > 0 {
        lemma_insert_pos(r.drop_first(), v, k - 1);
    }
}

/// The rows of `t` ordered by value, largest first; rows of equal value keep
/// their order.
pub fn sorted_desc(t: &Vec<(String, usize)>) -> (r: Vec<(String, usize)>)
    ensures
        r@ == sort_desc(t@),
        r@.to_multiset() == t@.to_multiset(),
        forall|a: int, b: int| 0 <= a < b < r@.len() ==> r@[a].1 >= r@[b].1,
{
    let mut r: Vec<(String, usize)> = Vec::new();
    let mut i: usize = 0;
    assert(r@ == t@.take(0));
    while i < t.len()
        invariant
            i <= t@.len(),
            r@ == sort_desc(t@.take(i as int)),
            r@.to_multiset() == t@.take(i as int).to_multiset(),
            forall|a: int, b: int| 0 <= a < b < r@.len() ==> r@[a].1 >= r@[b].1,
        decreases t.len() - i,
    {
        let x = (t[i].0.clone(), t[i].1);
        assert(x == t@[i as int]);
        let mut k: usize = 0;
        while k < r.len() && r[k].1 >= x.1
            invariant
                k <= r@.len(),
                forall|p: int| 0 <= p < k ==> r@[p].1 >= x.1,
            decreases r.len() - k,
        {
            k = k + 1;
        }
        let ghost before = r@;
        proof {
            lemma_insert_pos(before, x.1, k as int);
        }
        r.insert(k, x);
        proof {
            assert(r@ == before.insert(k as int, x));
            assert(t@.take(i as int + 1) == t@.take(i as int).push(x));
            assert(t@.take(i as int + 1).drop_last() == t@.take(i as int));
            vstd::seq_lib::to_multiset_insert(before, k as int, x);
            vstd::seq_lib::to_multiset_build(t@.take(i as int), x);
            assert forall|a: int, b: int| 0 <= a < b < r@.len() implies r@[a].1 >= r@[b].1 by {
                if a < k && b == k {
                } else if a < k && b > k {
                    assert(r@[b] == before[b - 1]);
                } else if a == k && b > k {
                    assert(r@[b] == before[b - 1]);
                    assert(before[k as int].1 < x.1);
                    if b - 1 > k {
                        assert(before[k as int].1 >= before[b - 1].1);
                    }
                } else if a > k {
                    assert(r@[a] == before[a - 1]);
                    assert(r@[b] == before[b - 1]);
                }
            }
        }
        i = i + 1;
    }
    assert(t@.take(t@.len() as int) == t@);
    r
}

/// Index of the last `.` in `s`, or -1 where there is none.
pub open spec fn last_dot(s: Seq<char>) -> int
    decreases s.len(),
{
    if s.len() == 0 {
        -1
    } else if s.last() == '.' {
        s.len() - 1
    } else {
        last_dot(s.drop_last())
    }
}

/// The extension of a base name: what follows its last `.`, or nothing where
/// it has no `.` but a leading one.
pub open spec fn extension(name: Seq<char>) -> Seq<char> {
    let p = last_dot(name);
    if p <= 0 {
        Seq::empty()
    } else {
        name.subrange(p + 1, name.len() as int)
    }
}

proof fn lemma_last_dot(s: Seq<char>, p: int)
    requires
        -1 <= p < s.len(),
        p >= 0 ==> s[p] == '.',
        forall|k: int| p < k < s.len() ==> s[k] != '.',
    ensures
        last_dot(s) == p,
    decreases s.len(),
{
    if s.len() > 0 && p < s.len() - 1 {
        lemma_last_dot(s.drop_last(), p);
    }
}

/// The extension of the base name `name`.
pub fn extension_of(name: &str) -> (r: String)
    ensures
        r@ == extension(name@),
{
    let cs = chars_of(name);
    let mut i: usize = cs.len();
    while i > 0 && cs[i - 1] != '.'
        invariant
            i <= cs@.len(),
            forall|k: int| i <= k < cs@.len() ==> cs@[k] != '.',
        decreases i,
    {
        i = i - 1;
    }
    proof {
        lemma_last_dot(cs@, i as int - 1);
    }
    let mut v: Vec<char> = Vec::new();
    if i > 1 {
        let mut j: usize = i;
        while j < cs.len()
            invariant
                i <= j <= cs@.len(),
                v@ == cs@.subrange(i as int, j as int),
            decreases cs.len() - j,
        {
            v.push(cs[j]);
            j = j + 1;
        }
    }
    assert(i <= 1 ==> v@ == Seq::<char>::empty());
    string_of(&v)
}

} // verus!
