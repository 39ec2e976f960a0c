//! The history cache: an ordered, size-bounded, deduplicated collection of
//! directory prefixes, addressable by a 1-based recency index, plus the
//! former-prefix register addressed by index 0.
//!
//! Records are kept oldest first. Insertion appends at the back after a
//! deduplication check; saving evicts from the front until the configured
//! bound holds, so the most recent records survive.

use vstd::prelude::*;

use crate::config::Config;
use crate::config::HistFileLocation;
use crate::strutil::is_blank_str;
use crate::strutil::spec_is_blank;
use crate::strutil::spec_dec;
use crate::strutil::usize_to_string;

verus! {

/// Mathematical model of the history cache: the selected storage location,
/// the record bound, the records oldest first, the dirty flag, and the
/// former-prefix register.
#[verifier::ext_equal]
pub struct HistModel {
    pub location: HistFileLocation,
    pub bound: nat,
    pub records: Seq<Seq<char>>,
    pub changed: bool,
    pub former: Option<Seq<char>>,
}

/// Insertion under the project-local canonical form: the record as given,
/// with blank records rejected; appended only when no equal record exists,
/// which marks the cache dirty.
pub open spec fn spec_add_if_nonexists(m: HistModel, rec: Seq<char>) -> HistModel {
    if !spec_is_blank(rec) && !m.records.contains(rec) {
        HistModel { records: m.records.push(rec), changed: true, ..m }
    } else {
        m
    }
}

/// Insertion of a record already in canonical form (the user-global
/// personality, where the caller resolved the record against the real
/// filesystem): appended only when no equal record exists.
pub open spec fn spec_add_canonical(m: HistModel, rec: Seq<char>) -> HistModel {
    if !m.records.contains(rec) {
        HistModel { records: m.records.push(rec), changed: true, ..m }
    } else {
        m
    }
}

/// Eviction from the front (oldest records) down to the bound.
pub open spec fn spec_truncated(rs: Seq<Seq<char>>, bound: nat) -> Seq<Seq<char>> {
    if rs.len() > bound {
        rs.skip(rs.len() - bound)
    } else {
        rs
    }
}

/// What a save does: nothing when the cache is clean; otherwise it evicts
/// down to the bound, clears the dirty flag, and — unless no storage location
/// was selected — hands the surviving records out to be written.
pub open spec fn spec_save(m: HistModel) -> (Option<Seq<Seq<char>>>, HistModel) {
    if m.changed {
        let m2 = HistModel { records: spec_truncated(m.records, m.bound), changed: false, ..m };
        if m.location == HistFileLocation::Neither {
            (None, m2)
        } else {
            (Some(m2.records), m2)
        }
    } else {
        (None, m)
    }
}

/// Lookup by recency index: 0 is the former-prefix register; otherwise index
/// `i` with `1 <= i <= len` is the `i`-th most recently inserted record, so
/// it sits at position `len - i` of the oldest-first sequence.
pub open spec fn spec_get(m: HistModel, i: nat) -> Option<Seq<char>> {
    if i == 0 {
        m.former
    } else if i <= m.records.len() {
        Some(m.records[m.records.len() - i])
    } else {
        None
    }
}

/// The history cache, loaded once at startup and persisted at shutdown if it
/// changed.
pub struct HistManager {
    conf: Config,
    records: Vec<String>,
    changed: bool,
    former_prefix: Option<String>,
}

impl View for HistManager {
    type V = HistModel;

    closed spec fn view(&self) -> HistModel {
        HistModel {
            location: self.conf.hist_location,
            bound: self.conf.max_records_num as nat,
            records: self.records.deep_view(),
            changed: self.changed,
            former: match self.former_prefix {
                Some(p) => Some(p@),
                None => None,
            },
        }
    }
}

/// Whether one of the records equals `rec`.
fn contains_record(records: &Vec<String>, rec: &String) -> (r: bool)
    ensures
        r == records.deep_view().contains(rec@),
{
    let mut i: usize = 0;
    while i < records.len()
        invariant
            0 <= i <= records.len(),
            forall|k: int| 0 <= k < i ==> records.deep_view()[k] != rec@,
        decreases records.len() - i,
    {
        if records[i] == *rec {
            proof {
                assert(records.deep_view()[i as int] == rec@);
            }
            return true;
        }
        i = i + 1;
    }
    false
}

/// An element-wise copy of the records.
fn clone_records(records: &Vec<String>) -> (r: Vec<String>)
    ensures
        r.deep_view() == records.deep_view(),
{
    let mut out: Vec<String> = Vec::new();
    let mut i: usize = 0;
    while i < records.len()
        invariant
            0 <= i <= records.len(),
            out.deep_view() == records.deep_view().take(i as int),
        decreases records.len() - i,
    {
        let ghost prev = out.deep_view();
        out.push(records[i].clone());
        proof {
            assert(out.deep_view() =~~= prev.push(records.deep_view()[i as int]));
            assert(out.deep_view() =~~= records.deep_view().take(i + 1));
        }
        i = i + 1;
    }
    proof {
        assert(records.deep_view().take(records.len() as int) =~~= records.deep_view());
    }
    out
}

impl HistManager {
    /// Builds the cache from the configuration and the records loaded from
    /// the selected store file (empty when no store file exists). The cache
    /// starts clean, with the former-prefix register unset.
    pub fn new(conf: Config, records: Vec<String>) -> (m: HistManager)
        ensures
            m@ == (HistModel {
                location: conf.hist_location,
                bound: conf.max_records_num as nat,
                records: records.deep_view(),
                changed: false,
                former: None,
            }),
    {
        let m = HistManager { conf, records, changed: false, former_prefix: None };
        proof {
            assert(m@ =~~= (HistModel {
                location: m.conf.hist_location,
                bound: m.conf.max_records_num as nat,
                records: m.records.deep_view(),
                changed: false,
                former: None,
            }));
        }
        m
    }

    /// Whether the project-local store personality is active.
    pub fn use_local(&self) -> (r: bool)
        ensures
            r == (self@.location == HistFileLocation::Local),
    {
        self.conf.use_local()
    }

    /// The configuration the cache was built with.
    pub fn config(&self) -> (c: &Config)
        ensures
            c.hist_location == self@.location,
            c.max_records_num as nat == self@.bound,
    {
        &self.conf
    }

    /// How many records the cache holds.
    pub fn len(&self) -> (n: usize)
        ensures
            n == self@.records.len(),
    {
        self.records.len()
    }

    /// Lookup by recency index; index 0 reads the former-prefix register, and
    /// an index past the records (or an unset register) yields nothing.
    pub fn get(&self, index: usize) -> (r: Option<String>)
        ensures
            match r {
                Some(p) => spec_get(self@, index as nat) == Some(p@),
                None => spec_get(self@, index as nat) is None,
            },
    {
        if index == 0 {
            match &self.former_prefix {
                Some(p) => Some(p.clone()),
                None => None,
            }
        } else if index <= self.records.len() {
            let p = self.records[self.records.len() - index].clone();
            proof {
                assert(self@.records[self@.records.len() - index] == p@);
            }
            Some(p)
        } else {
            None
        }
    }

    /// Overwrites the former-prefix register; never persisted.
    pub fn set_former_prefix(&mut self, former_prefix: String)
        ensures
            final(self)@ == (HistModel { former: Some(former_prefix@), ..old(self)@ }),
    {
        let ghost target = HistModel { former: Some(former_prefix@), ..old(self)@ };
        self.former_prefix = Some(former_prefix);
        proof {
            assert(self@ =~~= target);
        }
    }

    /// Inserts a record under the project-local personality: the canonical
    /// form is the record as given, blank records are rejected, and the
    /// record is appended only if no equal record exists.
    pub fn add_if_nonexists(&mut self, record: String)
        ensures
            final(self)@ == spec_add_if_nonexists(old(self)@, record@),
    {
        let ghost rec = record@;
        let ghost m0 = self@;
        if !is_blank_str(record.as_str()) && !contains_record(&self.records, &record) {
            let ghost prev = self.records.deep_view();
            self.records.push(record);
            self.changed = true;
            proof {
                assert(self.records.deep_view() =~~= prev.push(rec));
                assert(self@ =~~= spec_add_if_nonexists(m0, rec));
            }
        }
    }

    /// Inserts a record already in canonical form — the user-global
    /// personality, where the caller has resolved the record against the
    /// real filesystem (see [`HistManager::canonical_query`]). The record is
    /// appended only if no equal record exists.
    pub fn add_canonical(&mut self, record: String)
        ensures
            final(self)@ == spec_add_canonical(old(self)@, record@),
    {
        let ghost rec = record@;
        let ghost m0 = self@;
        if !contains_record(&self.records, &record) {
            let ghost prev = self.records.deep_view();
            self.records.push(record);
            self.changed = true;
            proof {
                assert(self.records.deep_view() =~~= prev.push(rec));
                assert(self@ =~~= spec_add_canonical(m0, rec));
            }
        }
    }

    /// The path that must be resolved against the real filesystem before the
    /// record can be inserted: nothing under the project-local personality
    /// (the record is canonical as given); otherwise the record itself, with
    /// `.` substituted for an empty record.
    pub fn canonical_query(&self, record: &String) -> (r: Option<String>)
        ensures
            match r {
                Some(q) => self@.location != HistFileLocation::Local && q@ == (
                if record@.len() == 0 {
                    seq!['.']
                } else {
                    record@
                }),
                None => self@.location == HistFileLocation::Local,
            },
    {
        if self.conf.use_local() {
            None
        } else if record.as_str().unicode_len() == 0 {
            let dot = ".".to_owned();
            proof {
                reveal_strlit(".");
                assert(dot@ =~= seq!['.']);
            }
            Some(dot)
        } else {
            Some(record.clone())
        }
    }

    /// Saves the cache: a no-op when nothing was inserted since loading;
    /// otherwise evicts the oldest records down to the bound, clears the
    /// dirty flag, and returns the surviving records for the caller to write
    /// to the selected store file — or nothing when no location was selected,
    /// so a first use never creates a store file by itself.
    pub fn save(&mut self) -> (r: Option<Vec<String>>)
        ensures
            final(self)@ == spec_save(old(self)@).1,
            match r {
                Some(v) => spec_save(old(self)@).0 == Some(v.deep_view()),
                None => spec_save(old(self)@).0 is None,
            },
    {
        if !self.changed {
            return None;
        }
        let ghost m0 = self@;
        let bound = self.conf.max_records_num;
        while self.records.len() > bound
            invariant
                self.conf == old(self).conf,
                self.changed == old(self).changed,
                self.former_prefix == old(self).former_prefix,
                bound == self.conf.max_records_num,
                self.records.deep_view().len() <= m0.records.len(),
                self.records.deep_view() == m0.records.skip(
                    m0.records.len() - self.records.deep_view().len(),
                ),
                self.records.deep_view().len() >= bound || self.records.deep_view()
                    == m0.records,
            decreases self.records.len(),
        {
            let ghost prev = self.records.deep_view();
            self.records.remove(0);
            proof {
                assert(self.records.deep_view() =~~= prev.drop_first());
                assert(prev.drop_first() =~~= m0.records.skip(
                    m0.records.len() - self.records.deep_view().len(),
                ));
            }
        }
        self.changed = false;
        proof {
            assert(self.records.deep_view() =~~= spec_truncated(m0.records, m0.bound));
            assert(self@ =~~= spec_save(m0).1);
        }
        match self.conf.hist_location {
            HistFileLocation::Neither => None,
            _ => Some(clone_records(&self.records)),
        }
    }
}

/// How the history renders for display: one line per record, `rank -- path`,
/// the rank counted 1-based from the front (oldest), so display order equals
/// storage order; an empty history renders a single indicator line.
pub open spec fn spec_pretty(rs: Seq<Seq<char>>) -> Seq<Seq<char>> {
    if rs.len() == 0 {
        seq!["[No history]"@]
    } else {
        Seq::new(rs.len(), |i: int| spec_dec((i + 1) as nat) + seq![' ', '-', '-', ' '] + rs[i])
    }
}

impl HistManager {
    /// Renders the history for display, one line per record in storage order
    /// (or a single indicator line when there is none).
    pub fn pretty_lines(&self) -> (r: Vec<String>)
        ensures
            r.deep_view() == spec_pretty(self@.records),
    {
        let n = self.records.len();
        let mut out: Vec<String> = Vec::new();
        if n == 0 {
            out.push("[No history]".to_owned());
            proof {
                assert(out.deep_view() =~~= spec_pretty(self@.records));
            }
            return out;
        }
        let mut i: usize = 0;
        while i < n
            invariant
                0 <= i <= n,
                n == self.records.len(),
                out.deep_view().len() == i,
                forall|k: int|
                    0 <= k < i ==> out.deep_view()[k] == spec_dec((k + 1) as nat) + seq![
                        ' ',
                        '-',
                        '-',
                        ' ',
                    ] + self.records.deep_view()[k],
            decreases n - i,
        {
            let mut line = usize_to_string(i + 1);
            line.append(" -- ");
            line.append(self.records[i].as_str());
            proof {
                reveal_strlit(" -- ");
                assert(" -- ".view() =~= seq![' ', '-', '-', ' ']);
                assert(line@ =~= spec_dec((i + 1) as nat) + seq![' ', '-', '-', ' ']
                    + self.records.deep_view()[i as int]);
            }
            let ghost prev = out.deep_view();
            out.push(line);
            proof {
                assert(out.deep_view() =~~= prev.push(out.deep_view().last()));
            }
            i = i + 1;
        }
        proof {
            assert(out.deep_view() =~~= spec_pretty(self@.records));
        }
        out
    }
}

/// Inserting a sequence of records one after another, oldest first, under
/// the project-local insertion rule.
pub open spec fn spec_add_all(m: HistModel, rs: Seq<Seq<char>>) -> HistModel
    decreases rs.len(),
{
    if rs.len() == 0 {
        m
    } else {
        spec_add_all(spec_add_if_nonexists(m, rs[0]), rs.drop_first())
    }
}

/// Inserting pairwise-distinct, non-blank records that are not yet present
/// appends them all, in order.
pub proof fn lemma_add_all_appends(m: HistModel, rs: Seq<Seq<char>>)
    requires
        forall|i: int| 0 <= i < rs.len() ==> !spec_is_blank(#[trigger] rs[i]),
        forall|i: int| 0 <= i < rs.len() ==> !m.records.contains(#[trigger] rs[i]),
        forall|i: int, j: int| 0 <= i < j < rs.len() ==> rs[i] != rs[j],
    ensures
        spec_add_all(m, rs).records == m.records + rs,
        spec_add_all(m, rs).location == m.location,
        spec_add_all(m, rs).bound == m.bound,
        spec_add_all(m, rs).former == m.former,
        spec_add_all(m, rs).changed == (m.changed || rs.len() > 0),
    decreases rs.len(),
{
    if rs.len() == 0 {
        assert(m.records + rs =~~= m.records);
    } else {
        let m1 = spec_add_if_nonexists(m, rs[0]);
        assert(m1.records == m.records.push(rs[0]));
        let d = rs.drop_first();
        assert forall|i: int| 0 <= i < d.len() implies !m1.records.contains(#[trigger] d[i]) by {
            assert(d[i] == rs[i + 1]);
            assert(!m.records.contains(rs[i + 1]));
            assert(rs[0] != rs[i + 1]);
            if m1.records.contains(d[i]) {
                let k = choose|k: int| 0 <= k < m1.records.len() && m1.records[k] == d[i];
                if k < m.records.len() {
                    assert(m.records.contains(d[i]));
                } else {
                    assert(m1.records[k] == rs[0]);
                }
            }
        }
        lemma_add_all_appends(m1, d);
        assert(m.records.push(rs[0]) + d =~~= m.records + rs);
    }
}

/// Law: inserting `bound + 1` pairwise-distinct, non-blank prefixes into an
/// empty cache and then saving leaves exactly the last `bound` inserted, the
/// oldest discarded, order preserved.
pub proof fn lemma_fifo_bound(m: HistModel, rs: Seq<Seq<char>>)
    requires
        m.records.len() == 0,
        rs.len() == m.bound + 1,
        forall|i: int| 0 <= i < rs.len() ==> !spec_is_blank(#[trigger] rs[i]),
        forall|i: int, j: int| 0 <= i < j < rs.len() ==> rs[i] != rs[j],
    ensures
        spec_save(spec_add_all(m, rs)).1.records == rs.skip(1),
{
    lemma_add_all_appends(m, rs);
    let full = spec_add_all(m, rs);
    assert(full.records =~~= rs);
    assert(spec_truncated(rs, m.bound) =~~= rs.skip(1));
}

/// Law: inserting the same prefix twice leaves the cache exactly as after
/// the first insertion — the records and the dirty flag do not change again.
pub proof fn lemma_dedup(m: HistModel, rec: Seq<char>)
    ensures
        spec_add_if_nonexists(spec_add_if_nonexists(m, rec), rec) == spec_add_if_nonexists(
            m,
            rec,
        ),
{
    let m1 = spec_add_if_nonexists(m, rec);
    if !spec_is_blank(rec) && !m.records.contains(rec) {
        assert(m1.records[m.records.len() as int] == rec);
        assert(m1.records.contains(rec));
    }
}

/// Law: after inserting fresh, distinct, non-blank prefixes `a`, `b`, `c` in
/// order into an empty cache with bound at least 3, recency index 1 yields
/// `c`, 2 yields `b`, 3 yields `a`, and 4 is out of range.
pub proof fn lemma_recency_indexing(m: HistModel, a: Seq<char>, b: Seq<char>, c: Seq<char>)
    requires
        m.records.len() == 0,
        m.bound >= 3,
        !spec_is_blank(a) && !spec_is_blank(b) && !spec_is_blank(c),
        a != b && b != c && a != c,
    ensures
        spec_get(spec_add_all(m, seq![a, b, c]), 1) == Some(c),
        spec_get(spec_add_all(m, seq![a, b, c]), 2) == Some(b),
        spec_get(spec_add_all(m, seq![a, b, c]), 3) == Some(a),
        spec_get(spec_add_all(m, seq![a, b, c]), 4) is None,
{
    let rs = seq![a, b, c];
    lemma_add_all_appends(m, rs);
    assert(spec_add_all(m, rs).records =~~= rs);
}

/// Law: saving is idempotent — after a save, a second save with no
/// intervening insertion writes nothing and changes nothing.
pub proof fn lemma_save_idempotent(m: HistModel)
    ensures
        spec_save(spec_save(m).1).0 is None,
        spec_save(spec_save(m).1).1 == spec_save(m).1,
{
}

} // verus!
