//! Configuration of the history store: which backing location one invocation
//! uses, how a store file's text decodes into records, and how records encode
//! back into the text that is written out.
//!
//! The store file is plain text: one path per line, oldest first, with a
//! trailing newline. Reading and writing the file itself is the caller's job;
//! this module only decides the location and converts between file text and
//! record sequences.

use vstd::prelude::*;

use crate::strutil::is_blank_str;
use crate::strutil::spec_is_blank;

verus! {

/// The backing store selected for one invocation: a file under the current
/// working directory, a file under the user's home directory, or none at all
/// (the history then lives only in memory and is never persisted).
#[derive(Clone, Copy, PartialEq, Eq, Structural, Debug)]
pub enum HistFileLocation {
    Local,
    Home,
    Neither,
}

/// Relative path of the project-local history store file.
pub fn local_history_file() -> (r: String)
    ensures
        r@ == "./.monat/history"@,
{
    "./.monat/history".to_owned()
}

/// The per-invocation configuration: the bound on the number of retained
/// records and the storage location, selected once and never changed mid-run.
pub struct Config {
    /// Maximum number of history records kept past a save.
    pub max_records_num: usize,
    /// The backing store selected for this invocation.
    pub hist_location: HistFileLocation,
}

/// Splits a text into its lines, cutting at every `'\n'`; a trailing newline
/// ends the last line rather than opening an empty one.
pub open spec fn split_lines(s: Seq<char>) -> Seq<Seq<char>>
    decreases s.len(),
{
    if s.len() == 0 {
        seq![]
    } else {
        let rest = split_lines(s.drop_first());
        if s[0] == '\n' {
            seq![Seq::<char>::empty()] + rest
        } else if rest.len() == 0 {
            seq![seq![s[0]]]
        } else {
            seq![seq![s[0]] + rest[0]] + rest.skip(1)
        }
    }
}

/// Drops a single carriage return left at the end of a line by a
/// Windows-style line ending.
pub open spec fn strip_cr(line: Seq<char>) -> Seq<char> {
    if line.len() > 0 && line[line.len() - 1] == '\r' {
        line.drop_last()
    } else {
        line
    }
}

/// Keeps the non-blank lines, each with a trailing carriage return removed,
/// in their original order.
pub open spec fn clean_lines(lines: Seq<Seq<char>>) -> Seq<Seq<char>>
    decreases lines.len(),
{
    if lines.len() == 0 {
        seq![]
    } else {
        let line = strip_cr(lines[0]);
        let rest = clean_lines(lines.drop_first());
        if spec_is_blank(line) {
            rest
        } else {
            seq![line] + rest
        }
    }
}

/// The records held by a store file with the given text: its non-blank lines,
/// oldest first.
pub open spec fn spec_load(s: Seq<char>) -> Seq<Seq<char>> {
    clean_lines(split_lines(s))
}

/// The records joined by single newlines, without a trailing one.
pub open spec fn spec_joined(rs: Seq<Seq<char>>) -> Seq<char>
    decreases rs.len(),
{
    if rs.len() == 0 {
        Seq::empty()
    } else if rs.len() == 1 {
        rs[0]
    } else {
        spec_joined(rs.drop_last()) + seq!['\n'] + rs.last()
    }
}

/// The full text written to a store file: the records joined by newlines,
/// with a trailing newline.
pub open spec fn spec_store_content(rs: Seq<Seq<char>>) -> Seq<char> {
    spec_joined(rs) + seq!['\n']
}

/// A text without newlines is one single line.
proof fn lemma_split_lines_no_newline(s: Seq<char>)
    requires
        s.len() > 0,
        forall|j: int| 0 <= j < s.len() ==> s[j] != '\n',
    ensures
        split_lines(s) == seq![s],
    decreases s.len(),
{
    let d = s.drop_first();
    if s.len() == 1 {
        assert(d.len() == 0);
        assert(split_lines(d) == Seq::<Seq<char>>::empty());
        assert(split_lines(s) == seq![seq![s[0]]]);
        assert(split_lines(s) =~~= seq![s]);
    } else {
        assert(forall|j: int| 0 <= j < d.len() ==> d[j] == s[j + 1]);
        lemma_split_lines_no_newline(d);
        let rest = split_lines(d);
        assert(rest == seq![d]);
        assert(split_lines(s) == seq![seq![s[0]] + rest[0]] + rest.skip(1));
        assert(seq![s[0]] + d =~= s);
        assert(split_lines(s) =~~= seq![s]);
    }
}

/// Cutting a text at its first newline splits off the first line.
proof fn lemma_split_lines_cut(s: Seq<char>, i: int)
    requires
        0 <= i < s.len(),
        s[i] == '\n',
        forall|j: int| 0 <= j < i ==> s[j] != '\n',
    ensures
        split_lines(s) == seq![s.take(i)] + split_lines(s.skip(i + 1)),
    decreases i,
{
    let d = s.drop_first();
    assert(d =~= s.skip(1));
    if i == 0 {
        assert(split_lines(s) == seq![Seq::<char>::empty()] + split_lines(d));
        assert(s.take(0) =~= Seq::<char>::empty());
        assert(split_lines(s) =~~= seq![s.take(i)] + split_lines(s.skip(i + 1)));
    } else {
        assert(forall|j: int| 0 <= j < d.len() ==> d[j] == s[j + 1]);
        lemma_split_lines_cut(d, i - 1);
        let rest = split_lines(d);
        assert(rest == seq![d.take(i - 1)] + split_lines(d.skip(i)));
        assert(rest.len() >= 1);
        assert(rest[0] == d.take(i - 1));
        assert(split_lines(s) == seq![seq![s[0]] + rest[0]] + rest.skip(1));
        assert(seq![s[0]] + d.take(i - 1) =~= s.take(i));
        assert(rest.skip(1) =~~= split_lines(d.skip(i)));
        assert(d.skip(i) =~= s.skip(i + 1));
        assert(split_lines(s) =~~= seq![s.take(i)] + split_lines(s.skip(i + 1)));
    }
}

/// Cleaning distributes over concatenation of line sequences.
proof fn lemma_clean_lines_add(a: Seq<Seq<char>>, b: Seq<Seq<char>>)
    ensures
        clean_lines(a + b) == clean_lines(a) + clean_lines(b),
    decreases a.len(),
{
    if a.len() == 0 {
        assert(a + b =~~= b);
        assert(clean_lines(a) == Seq::<Seq<char>>::empty());
        assert(clean_lines(a) + clean_lines(b) =~~= clean_lines(b));
    } else {
        assert((a + b)[0] == a[0]);
        assert((a + b).drop_first() =~~= a.drop_first() + b);
        lemma_clean_lines_add(a.drop_first(), b);
        let line = strip_cr(a[0]);
        if spec_is_blank(line) {
            assert(clean_lines(a + b) =~~= clean_lines(a) + clean_lines(b));
        } else {
            assert(clean_lines(a + b) =~~= clean_lines(a) + clean_lines(b));
        }
    }
}

impl Default for Config {
    /// The default configuration: bound 9, user-global store.
    fn default() -> (c: Config)
        ensures
            c.max_records_num == 9,
            c.hist_location == HistFileLocation::Home,
    {
        Config { max_records_num: 9, hist_location: HistFileLocation::Home }
    }
}

impl Config {
    /// The storage location this configuration selected at startup.
    pub open spec fn location(&self) -> HistFileLocation {
        self.hist_location
    }

    /// Selects the storage location once, before the cache loads: the
    /// project-local store when asked for explicitly or already present,
    /// else the user-global store when present, else none. The caller reports
    /// whether each store file exists and creates the store directory where
    /// it chose to ask for a local store.
    pub fn new(use_local: bool, local_exists: bool, home_exists: bool) -> (c: Config)
        ensures
            c.max_records_num == 9,
            c.location() == (if use_local || local_exists {
                HistFileLocation::Local
            } else if home_exists {
                HistFileLocation::Home
            } else {
                HistFileLocation::Neither
            }),
    {
        let hist_location = if use_local || local_exists {
            HistFileLocation::Local
        } else if home_exists {
            HistFileLocation::Home
        } else {
            HistFileLocation::Neither
        };
        Config { max_records_num: 9, hist_location }
    }

    /// Whether this configuration uses the project-local store.
    pub fn use_local(&self) -> (r: bool)
        ensures
            r == (self.location() == HistFileLocation::Local),
    {
        match self.hist_location {
            HistFileLocation::Local => true,
            _ => false,
        }
    }

    /// The storage location, for the caller that performs the file reads and
    /// writes.
    pub fn location_kind(&self) -> (l: HistFileLocation)
        ensures
            l == self.location(),
    {
        self.hist_location
    }

    /// Decodes the text of the selected store file into history records: one
    /// record per non-blank line, oldest first. The caller reads the file and
    /// passes an empty text when no store file exists.
    pub fn load_history_records(&self, content: &str) -> (r: Vec<String>)
        ensures
            r.deep_view() == spec_load(content@),
    {
        let s = content;
        let n = s.unicode_len();
        let mut out: Vec<String> = Vec::new();
        let mut start: usize = 0;
        proof {
            assert(s@.skip(0) =~= s@);
        }
        while start < n
            invariant
                0 <= start <= n,
                n == s@.len(),
                out.deep_view() + clean_lines(split_lines(s@.skip(start as int))) == spec_load(
                    s@,
                ),
            decreases n - start,
        {
            let ghost tail = s@.skip(start as int);
            let ghost out0 = out.deep_view();
            let mut j = start;
            while j < n && s.get_char(j) != '\n'
                invariant
                    start <= j <= n,
                    n == s@.len(),
                    forall|k: int| start <= k < j ==> s@[k] != '\n',
                decreases n - j,
            {
                j = j + 1;
            }
            // The raw line runs from `start` to `j`; drop one trailing '\r'.
            let line_end = if j > start && s.get_char(j - 1) == '\r' {
                j - 1
            } else {
                j
            };
            let line = s.substring_char(start, line_end);
            let ghost raw_line = s@.subrange(start as int, j as int);
            let ghost next = if j < n {
                j + 1
            } else {
                n as int
            };
            proof {
                assert(forall|k: int| 0 <= k < tail.len() ==> tail[k] == s@[start + k]);
                assert(line@ =~= strip_cr(raw_line));
                // The first line of `tail` is `raw_line`, and the rest of the
                // text is `s@.skip(next)`.
                if j < n {
                    assert(tail[j - start as int] == '\n');
                    lemma_split_lines_cut(tail, j - start as int);
                    assert(tail.take(j - start as int) =~= raw_line);
                    assert(tail.skip(j - start as int + 1) =~= s@.skip(next));
                    assert(split_lines(tail) == seq![raw_line] + split_lines(s@.skip(next)));
                } else {
                    assert(tail.len() > 0);
                    lemma_split_lines_no_newline(tail);
                    assert(tail =~= raw_line);
                    assert(s@.skip(next) =~= Seq::<char>::empty());
                    assert(split_lines(s@.skip(next)) == Seq::<Seq<char>>::empty());
                    assert(split_lines(tail) =~~= seq![raw_line] + split_lines(s@.skip(next)));
                }
                lemma_clean_lines_add(seq![raw_line], split_lines(s@.skip(next)));
                // Unfold clean_lines on the single raw line.
                assert(seq![raw_line].drop_first() =~~= Seq::<Seq<char>>::empty());
                assert(clean_lines(Seq::<Seq<char>>::empty()) == Seq::<Seq<char>>::empty());
                if spec_is_blank(strip_cr(raw_line)) {
                    assert(clean_lines(seq![raw_line]) =~~= Seq::<Seq<char>>::empty());
                } else {
                    assert(clean_lines(seq![raw_line]) =~~= seq![strip_cr(raw_line)]);
                }
            }
            if !is_blank_str(line) {
                let owned = line.to_owned();
                out.push(owned);
                proof {
                    assert(out.deep_view() =~~= out0.push(line@));
                    assert(out0.push(line@) =~~= out0 + seq![strip_cr(raw_line)]);
                }
            }
            proof {
                // Re-establish the invariant for the remaining text.
                assert(out.deep_view() + clean_lines(split_lines(s@.skip(next))) =~~= out0
                    + clean_lines(split_lines(tail)));
            }
            if j < n {
                start = j + 1;
            } else {
                start = n;
            }
        }
        proof {
            assert(s@.skip(start as int) =~= Seq::<char>::empty());
            assert(split_lines(s@.skip(start as int)) == Seq::<Seq<char>>::empty());
            assert(out.deep_view() =~~= spec_load(s@));
        }
        out
    }

    /// Encodes history records as store-file text: the records joined by
    /// newlines, oldest first, with a trailing newline. The caller writes the
    /// result to the selected store file.
    pub fn save_history_records(&self, records: &Vec<String>) -> (r: String)
        ensures
            r@ == spec_store_content(records.deep_view()),
    {
        let ghost rs = records.deep_view();
        let mut out = String::new();
        let mut i: usize = 0;
        proof {
            reveal_strlit("\n");
            assert(rs.take(0) =~= Seq::<Seq<char>>::empty());
        }
        while i < records.len()
            invariant
                0 <= i <= records.len(),
                rs == records.deep_view(),
                rs.len() == records.len(),
                out@ == spec_joined(rs.take(i as int)),
            decreases records.len() - i,
        {
            proof {
                reveal_strlit("\n");
            }
            if i > 0 {
                out.append("\n");
            }
            out.append(records[i].as_str());
            proof {
                let t = rs.take(i + 1);
                assert(t.drop_last() =~= rs.take(i as int));
                assert(t.last() == rs[i as int]);
                if i == 0 {
                    assert(out@ =~= spec_joined(t));
                } else {
                    assert(out@ =~= spec_joined(t));
                }
            }
            i = i + 1;
        }
        proof {
            reveal_strlit("\n");
            assert(rs.take(rs.len() as int) =~= rs);
        }
        out.append("\n");
        out
    }
}

} // verus!
