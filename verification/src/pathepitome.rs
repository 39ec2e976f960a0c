//! The expression resolver: parses one compact path expression — a history
//! reference such as `,1/foo`, or a literal path — resolves it against the
//! history cache, records the directory prefix it used, and composes the
//! absolute result.
//!
//! The history-reference grammar is `',' digits? ('/' suffix)?`: an optional
//! maximal run of decimal digits follows the comma (defaulting to index 0,
//! the former-prefix register), and anything further must open with `/`.

use vstd::prelude::*;

use path_absolutize::Absolutize;

use crate::histmanager::HistManager;
use crate::histmanager::HistModel;
use crate::histmanager::spec_add_if_nonexists;
use crate::histmanager::spec_get;
use crate::config::HistFileLocation;

verus! {

/// Why a path expression was rejected: the grammar was violated, or a history
/// reference pointed at a slot that does not exist.
#[derive(Debug)]
pub enum PathEpitomeParseError {
    SyntaxError(String),
    IndexOutOfRangeError(usize),
}

/// The abstract shape of a rejection, for contracts.
pub enum ParseFail {
    Syntax,
    OutOfRange(nat),
}

/// A decimal digit.
pub open spec fn is_digit_char(c: char) -> bool {
    48 <= c as int && c as int <= 57
}

/// Length of the maximal run of decimal digits opening `s`.
pub open spec fn digit_run_len(s: Seq<char>) -> nat
    decreases s.len(),
{
    if s.len() > 0 && is_digit_char(s[0]) {
        1 + digit_run_len(s.drop_first())
    } else {
        0
    }
}

/// Value of a run of decimal digits, most significant first.
pub open spec fn digits_val(s: Seq<char>) -> int
    decreases s.len(),
{
    if s.len() == 0 {
        0
    } else {
        digits_val(s.drop_last()) * 10 + (s.last() as int - 48)
    }
}

/// The history index a digit run selects: its value, clamped to the largest
/// representable index (any clamped value is far beyond the cache bound, so
/// such a reference is out of range either way).
pub open spec fn clamped_index(ds: Seq<char>) -> nat {
    if digits_val(ds) > usize::MAX as int {
        usize::MAX as nat
    } else {
        digits_val(ds) as nat
    }
}

/// What parsing a history reference (a token opening with `','`) yields:
/// the selected index and the literal suffix, or nothing when the character
/// after the digit run is not a separator.
pub open spec fn spec_parse(s: Seq<char>) -> Option<(nat, Seq<char>)> {
    let tail = s.skip(1);
    let d = digit_run_len(tail) as int;
    let idx = clamped_index(tail.take(d));
    if d == tail.len() {
        Some((idx, Seq::<char>::empty()))
    } else if tail[d] == '/' {
        Some((idx, tail.skip(d + 1)))
    } else {
        None
    }
}

/// A digit run's length is pinned by its characterization.
proof fn lemma_digit_run_len_is(s: Seq<char>, k: int)
    requires
        0 <= k <= s.len(),
        forall|j: int| 0 <= j < k ==> is_digit_char(s[j]),
        k == s.len() || !is_digit_char(s[k]),
    ensures
        digit_run_len(s) == k,
    decreases k,
{
    if k == 0 {
    } else {
        let d = s.drop_first();
        assert(forall|j: int| 0 <= j < d.len() ==> d[j] == s[j + 1]);
        lemma_digit_run_len_is(d, k - 1);
    }
}

/// The value of a digit run is non-negative.
proof fn lemma_digits_val_nonneg(s: Seq<char>)
    requires
        forall|j: int| 0 <= j < s.len() ==> is_digit_char(s[j]),
    ensures
        digits_val(s) >= 0,
    decreases s.len(),
{
    if s.len() > 0 {
        let d = s.drop_last();
        assert(forall|j: int| 0 <= j < d.len() ==> d[j] == s[j]);
        lemma_digits_val_nonneg(d);
    }
}

/// Whether `c` is a decimal digit.
fn is_digit_exec(c: char) -> (r: bool)
    ensures
        r == is_digit_char(c),
{
    let u = c as u32;
    48 <= u && u <= 57
}

/// Law: the grammar round-trips. For any digit run `d` (possibly empty, in
/// which case the index defaults to 0) and any suffix `s`, parsing
/// `,{d}/{s}` yields the index `d` selects and exactly the suffix `s`.
pub proof fn lemma_parse_with_suffix(d: Seq<char>, s: Seq<char>)
    requires
        forall|j: int| 0 <= j < d.len() ==> is_digit_char(#[trigger] d[j]),
    ensures
        spec_parse(seq![','] + d + seq!['/'] + s) == Some((clamped_index(d), s)),
{
    let full = seq![','] + d + seq!['/'] + s;
    let tail = full.skip(1);
    assert(tail =~= d + seq!['/'] + s);
    assert(!is_digit_char('/')) by {
        assert('/' as int == 47);
    }
    lemma_digit_run_len_is(tail, d.len() as int);
    assert(tail.take(d.len() as int) =~= d);
    assert(tail.skip(d.len() as int + 1) =~= s);
}

/// Law: the grammar round-trips with no suffix. For any digit run `d`
/// (possibly empty), parsing `,{d}` yields the index `d` selects and an
/// empty suffix.
pub proof fn lemma_parse_no_suffix(d: Seq<char>)
    requires
        forall|j: int| 0 <= j < d.len() ==> is_digit_char(#[trigger] d[j]),
    ensures
        spec_parse(seq![','] + d) == Some((clamped_index(d), Seq::<char>::empty())),
{
    let full = seq![','] + d;
    let tail = full.skip(1);
    assert(tail =~= d);
    lemma_digit_run_len_is(tail, d.len() as int);
    assert(tail.take(d.len() as int) =~= d);
}

/// Law: anything but a separator after the digit run is rejected. For any
/// digit run `d` and any remainder `r` that does not open with `/` (nor with
/// a further digit, which would belong to the run), parsing `,{d}{r}` fails
/// with a syntax error.
pub proof fn lemma_parse_syntax_error(d: Seq<char>, r: Seq<char>)
    requires
        forall|j: int| 0 <= j < d.len() ==> is_digit_char(#[trigger] d[j]),
        r.len() > 0,
        r[0] != '/',
        !is_digit_char(r[0]),
    ensures
        spec_parse(seq![','] + d + r) is None,
{
    let full = seq![','] + d + r;
    let tail = full.skip(1);
    assert(tail =~= d + r);
    lemma_digit_run_len_is(tail, d.len() as int);
}

/// What `path` becomes once its `.` and `..` components are resolved against
/// the base directory `cwd`, lexically, without touching the filesystem.
pub uninterp spec fn abs_of(path: Seq<char>, cwd: Seq<char>) -> Seq<char>;

/// Relies on path_absolutize's `Absolutize::absolutize_from`: it resolves the
/// `.` and `..` components of `path` against the base directory `cwd` as a
/// pure lexical function of the two arguments, it never fails, and a path
/// without components comes back as `cwd` itself.
#[verifier::external_body]
fn absolutize_from(path: &str, cwd: &str) -> (r: String)
    ensures
        r@ == abs_of(path@, cwd@),
        path@.len() == 0 ==> r@ == cwd@,
{
    std::path::Path::new(path)
        .absolutize_from(std::path::Path::new(cwd))
        .to_string_lossy()
        .into_owned()
}

/// `a` made relative to the base `c`: empty when they are equal, the rest
/// when `c` (as a directory) is a proper prefix of `a`, and `a` itself,
/// unchanged, when it lies outside `c` — the fallback for a prefix outside
/// the current working directory.
pub open spec fn strip_below(a: Seq<char>, c: Seq<char>) -> Seq<char> {
    if a == c {
        Seq::<char>::empty()
    } else if c.len() == 1 && c[0] == '/' && a.len() >= 1 && a[0] == '/' {
        a.skip(1)
    } else if a.len() > c.len() && a.take(c.len() as int) == c && a[c.len() as int] == '/' {
        a.skip(c.len() as int + 1)
    } else {
        a
    }
}

/// The directory prefix as the history records it: absolutized, then made
/// relative to the absolutized current working directory.
pub open spec fn spec_simplified(p: Seq<char>, cwd: Seq<char>) -> Seq<char> {
    strip_below(abs_of(p, cwd), abs_of(seq!['.'], cwd))
}

/// Normalizes `path` against `cwd` and strips the `cwd` prefix, yielding a
/// path relative to "here"; a path outside `cwd` stays absolute.
pub fn simplify_relative_path(path: &str, cwd: &str) -> (r: String)
    ensures
        r@ == spec_simplified(path@, cwd@),
{
    let a = absolutize_from(path, cwd);
    let c = absolutize_from(".", cwd);
    proof {
        reveal_strlit(".");
        assert(".".view() =~= seq!['.']);
    }
    if a == c {
        return String::new();
    }
    let alen = a.as_str().unicode_len();
    let clen = c.as_str().unicode_len();
    if clen == 1 && c.as_str().get_char(0) == '/' && alen >= 1 && a.as_str().get_char(0)
        == '/' {
        let r = a.as_str().substring_char(1, alen).to_owned();
        proof {
            assert(r@ =~= a@.skip(1));
        }
        r
    } else if alen > clen && a.as_str().get_char(clen) == '/' && a.as_str().substring_char(
        0,
        clen,
    ).to_owned() == c {
        let r = a.as_str().substring_char(clen + 1, alen).to_owned();
        proof {
            assert(a@.take(clen as int) == c@);
            assert(r@ =~= a@.skip(clen + 1));
        }
        r
    } else {
        a
    }
}

/// Index of the last `/` in `s`, or −1 when there is none.
pub open spec fn last_slash(s: Seq<char>) -> int
    decreases s.len(),
{
    if s.len() == 0 {
        -1
    } else if s[s.len() - 1] == '/' {
        s.len() - 1
    } else {
        last_slash(s.drop_last())
    }
}

/// A literal path split into its directory part and its final component.
/// A path without `/` has directory `.` — except `.` and `..` themselves,
/// which have no distinguishable final component and stand whole as the
/// directory part. A path whose only `/` leads (such as `/etc`) has the root
/// as its directory part.
pub open spec fn spec_split(s: Seq<char>) -> (Seq<char>, Seq<char>) {
    let p = last_slash(s);
    if p < 0 {
        if s == seq!['.'] || s == seq!['.', '.'] {
            (s, Seq::<char>::empty())
        } else {
            (seq!['.'], s)
        }
    } else if p == 0 {
        (seq!['/'], s.skip(1))
    } else {
        (s.take(p), s.skip(p + 1))
    }
}

/// The position of the last slash is pinned by its characterization.
proof fn lemma_last_slash_is(s: Seq<char>, p: int)
    requires
        -1 <= p < s.len(),
        p >= 0 ==> s[p] == '/',
        forall|k: int| p < k < s.len() ==> s[k] != '/',
    ensures
        last_slash(s) == p,
    decreases s.len(),
{
    if s.len() == 0 {
    } else if s[s.len() - 1] == '/' {
        assert(p == s.len() - 1);
    } else {
        let d = s.drop_last();
        assert(p < s.len() - 1);
        assert(forall|j: int| 0 <= j < d.len() ==> d[j] == s[j]);
        lemma_last_slash_is(d, p);
    }
}

/// Splits a literal path into its directory part and its final component.
pub fn split_path(path: &str) -> (r: (String, String))
    ensures
        r.0@ == spec_split(path@).0,
        r.1@ == spec_split(path@).1,
{
    let n = path.unicode_len();
    let mut j: usize = n;
    while j > 0 && path.get_char(j - 1) != '/'
        invariant
            0 <= j <= n,
            n == path@.len(),
            forall|k: int| j <= k < n ==> path@[k] != '/',
        decreases j,
    {
        j = j - 1;
    }
    if j == 0 {
        proof {
            lemma_last_slash_is(path@, -1);
        }
        let is_dot = n == 1 && path.get_char(0) == '.';
        let is_dotdot = n == 2 && path.get_char(0) == '.' && path.get_char(1) == '.';
        if is_dot || is_dotdot {
            proof {
                if n == 1 {
                    assert(path@ =~= seq!['.']);
                } else {
                    assert(path@ =~= seq!['.', '.']);
                }
            }
            (path.to_owned(), String::new())
        } else {
            let dot = ".".to_owned();
            proof {
                reveal_strlit(".");
                assert(dot@ =~= seq!['.']);
                assert(path@ != seq!['.'] && path@ != seq!['.', '.']) by {
                    if path@ == seq!['.'] {
                        assert(path@.len() == 1 && path@[0] == '.');
                    }
                    if path@ == seq!['.', '.'] {
                        assert(path@.len() == 2 && path@[0] == '.' && path@[1] == '.');
                    }
                }
            }
            (dot, path.to_owned())
        }
    } else {
        proof {
            lemma_last_slash_is(path@, j - 1);
        }
        let leaf = path.substring_char(j, n).to_owned();
        proof {
            assert(leaf@ =~= path@.skip(j as int));
        }
        if j == 1 {
            let root = "/".to_owned();
            proof {
                reveal_strlit("/");
                assert(root@ =~= seq!['/']);
            }
            (root, leaf)
        } else {
            let dir = path.substring_char(0, j - 1).to_owned();
            proof {
                assert(dir@ =~= path@.take(j - 1));
            }
            (dir, leaf)
        }
    }
}

/// The directory prefix and the suffix joined back into one path, the way a
/// path join works: an empty suffix leaves the prefix, an absolute suffix
/// replaces the prefix, and otherwise a single `/` separates the two.
pub open spec fn spec_join(p: Seq<char>, s: Seq<char>) -> Seq<char> {
    if s.len() == 0 {
        p
    } else if s[0] == '/' {
        s
    } else if p.len() == 0 {
        s
    } else if p[p.len() - 1] == '/' {
        p + s
    } else {
        p + seq!['/'] + s
    }
}

/// Joins a directory prefix and a suffix into one path.
fn join_path(prefix: &str, suffix: &str) -> (r: String)
    ensures
        r@ == spec_join(prefix@, suffix@),
{
    let slen = suffix.unicode_len();
    let plen = prefix.unicode_len();
    if slen == 0 {
        prefix.to_owned()
    } else if suffix.get_char(0) == '/' {
        suffix.to_owned()
    } else if plen == 0 {
        suffix.to_owned()
    } else if prefix.get_char(plen - 1) == '/' {
        let mut out = prefix.to_owned();
        out.append(suffix);
        out
    } else {
        let mut out = prefix.to_owned();
        out.append("/");
        out.append(suffix);
        proof {
            reveal_strlit("/");
            assert("/".view() =~= seq!['/']);
            assert(out@ =~= prefix@ + seq!['/'] + suffix@);
        }
        out
    }
}

/// Mathematical model of a parsed path expression.
#[verifier::ext_equal]
pub struct EpitomeModel {
    pub has_epitome: bool,
    pub hist_idx: nat,
    pub prefix: Seq<char>,
    pub suffix: Seq<char>,
}

/// A parsed path expression: either a history reference (index and suffix)
/// or a literal path already split into directory prefix and final component.
pub struct PathEpitome {
    has_epitome: bool,
    hist_idx: usize,
    prefix: String,
    suffix: String,
}

impl View for PathEpitome {
    type V = EpitomeModel;

    closed spec fn view(&self) -> EpitomeModel {
        EpitomeModel {
            has_epitome: self.has_epitome,
            hist_idx: self.hist_idx as nat,
            prefix: self.prefix@,
            suffix: self.suffix@,
        }
    }
}

/// What resolving one path expression does: the parsed expression and the
/// cache after the resolution. A history reference is parsed, looked up, and
/// the prefix it used is re-recorded; a literal path is split and its
/// directory part recorded. Recording inserts the simplified prefix — under
/// the project-local personality directly; under the others the caller must
/// resolve the record against the real filesystem first (see
/// [`HistManager::canonical_query`]), so the cache is left untouched here.
pub open spec fn spec_new(m: HistModel, s: Seq<char>, cwd: Seq<char>) -> Result<
    (EpitomeModel, HistModel),
    ParseFail,
> {
    if s.len() > 0 && s[0] == ',' {
        match spec_parse(s) {
            None => Err(ParseFail::Syntax),
            Some(parsed) => match spec_get(m, parsed.0) {
                None => Err(ParseFail::OutOfRange(parsed.0)),
                Some(p) => {
                    let m2 = if m.location == HistFileLocation::Local {
                        spec_add_if_nonexists(m, spec_simplified(p, cwd))
                    } else {
                        m
                    };
                    Ok(
                        (
                            EpitomeModel {
                                has_epitome: true,
                                hist_idx: parsed.0,
                                prefix: p,
                                suffix: parsed.1,
                            },
                            m2,
                        ),
                    )
                },
            },
        }
    } else {
        let parts = spec_split(s);
        let m2 = if m.location == HistFileLocation::Local {
            spec_add_if_nonexists(m, spec_simplified(parts.0, cwd))
        } else {
            m
        };
        Ok(
            (
                EpitomeModel { has_epitome: false, hist_idx: 0, prefix: parts.0, suffix: parts.1 },
                m2,
            ),
        )
    }
}

impl PathEpitome {
    /// Parses a history reference: the optional digit run after the comma gives
    /// the index (default 0), and anything further must open with `/`, which
    /// starts the literal suffix. Rejected exactly when a non-separator follows
    /// the digit run.
    pub fn parse_path_str(path: &str) -> (r: Result<(usize, String), PathEpitomeParseError>)
        requires
            path@.len() >= 1,
            path@[0] == ',',
        ensures
            match r {
                Ok(p) => spec_parse(path@) == Some((p.0 as nat, p.1@)),
                Err(PathEpitomeParseError::SyntaxError(msg)) => spec_parse(path@) is None && msg@
                    == "A slash (/) is expected after comma expression"@,
                Err(PathEpitomeParseError::IndexOutOfRangeError(_)) => false,
            },
    {
        let n = path.unicode_len();
        let ghost tail = path@.skip(1);
        proof {
            assert(forall|k: int| 0 <= k < tail.len() ==> tail[k] == path@[k + 1]);
        }
        // Find the end of the maximal digit run after the comma.
        let mut end: usize = 1;
        while end < n && is_digit_exec(path.get_char(end))
            invariant
                1 <= end <= n,
                n == path@.len(),
                forall|j: int| 1 <= j < end ==> is_digit_char(path@[j]),
            decreases n - end,
        {
            end = end + 1;
        }
        proof {
            lemma_digit_run_len_is(tail, end - 1);
        }
        let ghost ds = tail.take(end - 1);
        // Accumulate the index value, clamped at the largest representable index.
        let mut val: usize = 0;
        let mut i: usize = 1;
        proof {
            assert(tail.take(0) =~= Seq::<char>::empty());
        }
        while i < end
            invariant
                1 <= i <= end <= n,
                n == path@.len(),
                tail == path@.skip(1),
                forall|j: int| 1 <= j < end ==> is_digit_char(path@[j]),
                val == clamped_index(tail.take(i - 1)),
            decreases end - i,
        {
            let c = path.get_char(i);
            let u = c as u32;
            let d = (u - 48) as usize;
            let ghost pre = tail.take(i - 1);
            let ghost cur = tail.take(i as int);
            proof {
                assert(cur.drop_last() =~= pre);
                assert(cur.last() == path@[i as int]);
                assert(forall|j: int| 0 <= j < pre.len() ==> is_digit_char(pre[j]));
                lemma_digits_val_nonneg(pre);
                assert(digits_val(cur) == digits_val(pre) * 10 + d);
            }
            val = match val.checked_mul(10) {
                Some(v) => match v.checked_add(d) {
                    Some(w) => w,
                    None => usize::MAX,
                },
                None => usize::MAX,
            };
            proof {
                if digits_val(pre) > usize::MAX as int {
                    assert(digits_val(pre) * 10 >= digits_val(pre));
                    assert(digits_val(cur) > usize::MAX as int);
                } else {
                    assert(digits_val(pre) == clamped_index(pre));
                }
            }
            i = i + 1;
        }
        let ghost idx = clamped_index(ds);
        proof {
            assert(val == idx);
        }
        if end == n {
            let suffix = String::new();
            proof {
                assert(spec_parse(path@) == Some((idx, Seq::<char>::empty())));
            }
            Ok((val, suffix))
        } else {
            let c = path.get_char(end);
            proof {
                assert(tail[end - 1] == c);
            }
            if c == '/' {
                let suffix = path.substring_char(end + 1, n).to_owned();
                proof {
                    assert(tail.skip(end - 1 + 1) =~= path@.subrange(end + 1, n as int));
                    assert(spec_parse(path@) == Some((idx, suffix@)));
                }
                Ok((val, suffix))
            } else {
                proof {
                    assert(!is_digit_char(tail[end - 1]));
                    assert(spec_parse(path@) is None);
                }
                Err(
                    PathEpitomeParseError::SyntaxError(
                        "A slash (/) is expected after comma expression".to_owned(),
                    ),
                )
            }
        }
    }

    /// Resolves one path expression against the history cache, recording the
    /// directory prefix it used (under the project-local personality; under
    /// the others the caller resolves and inserts the record itself, see
    /// [`HistManager::canonical_query`] and [`HistManager::add_canonical`]).
    /// `cwd` is the current working directory paths resolve against.
    pub fn new(path: &str, histmanager: &mut HistManager, cwd: &str) -> (r: Result<
        PathEpitome,
        PathEpitomeParseError,
    >)
        ensures
            match r {
                Ok(e) => spec_new(old(histmanager)@, path@, cwd@) == Ok::<
                    (EpitomeModel, HistModel),
                    ParseFail,
                >((e@, final (histmanager)@)),
                Err(PathEpitomeParseError::SyntaxError(msg)) => spec_new(
                    old(histmanager)@,
                    path@,
                    cwd@,
                ) == Err::<(EpitomeModel, HistModel), ParseFail>(ParseFail::Syntax) && msg@
                    == "A slash (/) is expected after comma expression"@ && final (histmanager)@
                    == old(histmanager)@,
                Err(PathEpitomeParseError::IndexOutOfRangeError(i)) => spec_new(
                    old(histmanager)@,
                    path@,
                    cwd@,
                ) == Err::<(EpitomeModel, HistModel), ParseFail>(ParseFail::OutOfRange(i as nat))
                    && final (histmanager)@ == old(histmanager)@,
            },
    {
        let ghost m0 = histmanager@;
        let n = path.unicode_len();
        if n >= 1 && path.get_char(0) == ',' {
            let parsed = match PathEpitome::parse_path_str(path) {
                Ok(p) => p,
                Err(e) => {
                    return Err(e);
                },
            };
            let (hist_idx, suffix) = parsed;
            let prefix = match histmanager.get(hist_idx) {
                Some(p) => p,
                None => {
                    return Err(PathEpitomeParseError::IndexOutOfRangeError(hist_idx));
                },
            };
            let record = simplify_relative_path(prefix.as_str(), cwd);
            if histmanager.use_local() {
                histmanager.add_if_nonexists(record);
            }
            let e = PathEpitome { has_epitome: true, hist_idx, prefix, suffix };
            proof {
                assert(e@ =~~= EpitomeModel {
                    has_epitome: true,
                    hist_idx: hist_idx as nat,
                    prefix: e.prefix@,
                    suffix: e.suffix@,
                });
            }
            Ok(e)
        } else {
            let parts = split_path(path);
            let (prefix, suffix) = parts;
            let record = simplify_relative_path(prefix.as_str(), cwd);
            if histmanager.use_local() {
                histmanager.add_if_nonexists(record);
            }
            let e = PathEpitome { has_epitome: false, hist_idx: 0, prefix, suffix };
            proof {
                assert(e@ =~~= EpitomeModel {
                    has_epitome: false,
                    hist_idx: 0,
                    prefix: e.prefix@,
                    suffix: e.suffix@,
                });
            }
            Ok(e)
        }
    }

    /// The composed absolute path: the prefix joined with the suffix,
    /// resolved against `cwd`.
    pub fn get_path(&self, cwd: &str) -> (r: String)
        ensures
            r@ == abs_of(spec_join(self@.prefix, self@.suffix), cwd@),
    {
        let joined = join_path(self.prefix.as_str(), self.suffix.as_str());
        absolutize_from(joined.as_str(), cwd)
    }

    /// The directory prefix this expression resolved to.
    pub fn prefix(&self) -> (r: String)
        ensures
            r@ == self@.prefix,
    {
        self.prefix.clone()
    }

    /// The record this expression asks the history to keep: its prefix,
    /// simplified relative to `cwd`. Under the personalities that canonicalize
    /// against the real filesystem, the caller resolves this record (see
    /// [`HistManager::canonical_query`]) and inserts it with
    /// [`HistManager::add_canonical`].
    pub fn prefix_record(&self, cwd: &str) -> (r: String)
        ensures
            r@ == spec_simplified(self@.prefix, cwd@),
    {
        simplify_relative_path(self.prefix.as_str(), cwd)
    }
}

/// What resolving up to two path expressions does: the resolved absolute
/// paths (or the first failure) and the cache afterwards. The prefix of the
/// first expression seeds the former-prefix register, so the second
/// expression can reference it via index 0. A failure in the second
/// expression leaves the first one's effects in place.
pub open spec fn spec_parse_paths(
    m: HistModel,
    from: Option<Seq<char>>,
    to: Option<Seq<char>>,
    cwd: Seq<char>,
) -> (Result<Seq<Seq<char>>, ParseFail>, HistModel) {
    match from {
        Option::None => match to {
            Option::None => (Ok(Seq::<Seq<char>>::empty()), m),
            Option::Some(t) => match spec_new(m, t, cwd) {
                Ok(r2) => (Ok(seq![abs_of(spec_join(r2.0.prefix, r2.0.suffix), cwd)]), r2.1),
                Err(f) => (Err(f), m),
            },
        },
        Option::Some(f1) => match spec_new(m, f1, cwd) {
            Err(f) => (Err(f), m),
            Ok(r1) => {
                let m1 = HistModel { former: Some(r1.0.prefix), ..r1.1 };
                let p1 = abs_of(spec_join(r1.0.prefix, r1.0.suffix), cwd);
                match to {
                    Option::None => (Ok(seq![p1]), m1),
                    Option::Some(t) => match spec_new(m1, t, cwd) {
                        Ok(r2) => (
                            Ok(seq![p1, abs_of(spec_join(r2.0.prefix, r2.0.suffix), cwd)]),
                            r2.1,
                        ),
                        Err(f) => (Err(f), m1),
                    },
                }
            },
        },
    }
}

/// Resolves up to two path expressions in order, seeding the former-prefix
/// register with the first one's prefix, and returns the composed absolute
/// paths.
pub fn parse_paths(
    histmanager: &mut HistManager,
    from: Option<String>,
    to: Option<String>,
    cwd: &str,
) -> (r: Result<Vec<String>, PathEpitomeParseError>)
    ensures
        ({
            let sp = spec_parse_paths(old(histmanager)@, from.deep_view(), to.deep_view(), cwd@);
            final (histmanager)@ == sp.1 && match r {
                Ok(v) => sp.0 == Ok::<Seq<Seq<char>>, ParseFail>(v.deep_view()),
                Err(PathEpitomeParseError::SyntaxError(msg)) => sp.0 == Err::<
                    Seq<Seq<char>>,
                    ParseFail,
                >(ParseFail::Syntax) && msg@ == "A slash (/) is expected after comma expression"@,
                Err(PathEpitomeParseError::IndexOutOfRangeError(i)) => sp.0 == Err::<
                    Seq<Seq<char>>,
                    ParseFail,
                >(ParseFail::OutOfRange(i as nat)),
            }
        }),
{
    let ghost m0 = histmanager@;
    let mut ret: Vec<String> = Vec::new();
    match from {
        Some(f) => {
            match PathEpitome::new(f.as_str(), histmanager, cwd) {
                Ok(e) => {
                    histmanager.set_former_prefix(e.prefix());
                    let p = e.get_path(cwd);
                    ret.push(p);
                },
                Err(err) => {
                    return Err(err);
                },
            }
        },
        None => {},
    }
    match to {
        Some(t) => {
            match PathEpitome::new(t.as_str(), histmanager, cwd) {
                Ok(e) => {
                    let p = e.get_path(cwd);
                    ret.push(p);
                },
                Err(err) => {
                    return Err(err);
                },
            }
        },
        None => {},
    }
    proof {
        assert(ret.deep_view() =~~= spec_parse_paths(
            m0,
            from.deep_view(),
            to.deep_view(),
            cwd@,
        ).0->Ok_0);
    }
    Ok(ret)
}

} // verus!
