use vstd::prelude::*;
use crate::store::{text_eq, VersionStore};

verus! {

/// One package as the server describes it.
pub struct PackageInfo {
    pub name: String,
    pub version: String,
    pub sources: Vec<String>,
}

pub struct PackageView {
    pub name: Seq<char>,
    pub version: Seq<char>,
    pub sources: Seq<Seq<char>>,
}

impl View for PackageInfo {
    type V = PackageView;

    open spec fn view(&self) -> PackageView {
        PackageView { name: self.name@, version: self.version@, sources: self.sources.deep_view() }
    }
}

/// A recorded version transition for one package.
pub struct ChangelogEntry {
    pub name: String,
    pub old_version: Option<String>,
    pub new_version: String,
    pub sources: Vec<String>,
}

pub struct EntryView {
    pub name: Seq<char>,
    pub old_version: Option<Seq<char>>,
    pub new_version: Seq<char>,
    pub sources: Seq<Seq<char>>,
}

impl View for ChangelogEntry {
    type V = EntryView;

    open spec fn view(&self) -> EntryView {
        EntryView {
            name: self.name@,
            old_version: match self.old_version {
                Some(v) => Some(v@),
                None => None,
            },
            new_version: self.new_version@,
            sources: self.sources.deep_view(),
        }
    }
}

pub open spec fn packages_view(v: Seq<PackageInfo>) -> Seq<PackageView> {
    v.map_values(|p: PackageInfo| p@)
}

pub open spec fn entries_view(v: Seq<ChangelogEntry>) -> Seq<EntryView> {
    v.map_values(|e: ChangelogEntry| e@)
}

/// The version the server answers when it could not determine one.
pub open spec fn is_unknown(v: Seq<char>) -> bool {
    v == seq!['U', 'n', 'k', 'n', 'o', 'w', 'n']
}

/// The entry that one package yields against the stored mapping `m`:
/// none for an undetermined version or an unchanged one.
pub open spec fn entry_for(d: PackageView, m: Map<Seq<char>, Seq<char>>) -> Option<EntryView> {
    if is_unknown(d.version) || (m.contains_key(d.name) && m[d.name] == d.version) {
        None
    } else {
        Some(
            EntryView {
                name: d.name,
                old_version: if m.contains_key(d.name) {
                    Some(m[d.name])
                } else {
                    None
                },
                new_version: d.version,
                sources: d.sources,
            },
        )
    }
}

/// The changelog of a response against the stored mapping, in response order.
pub open spec fn changes(ds: Seq<PackageView>, m: Map<Seq<char>, Seq<char>>) -> Seq<EntryView>
    decreases ds.len(),
{
    if ds.len() == 0 {
        Seq::empty()
    } else {
        let prev = changes(ds.drop_last(), m);
        match entry_for(ds.last(), m) {
            Some(e) => prev.push(e),
            None => prev,
        }
    }
}

/// The stored mapping after a response: every determined version is recorded.
pub open spec fn refreshed(ds: Seq<PackageView>, m: Map<Seq<char>, Seq<char>>) -> Map<
    Seq<char>,
    Seq<char>,
>
    decreases ds.len(),
{
    if ds.len() == 0 {
        m
    } else {
        let prev = refreshed(ds.drop_last(), m);
        if is_unknown(ds.last().version) {
            prev
        } else {
            prev.insert(ds.last().name, ds.last().version)
        }
    }
}

/// Whether `v` is the undetermined-version marker.
pub fn version_is_unknown(v: &str) -> (r: bool)
    ensures
        r == is_unknown(v@),
{
    proof {
        reveal_strlit("Unknown");
    }
    let r = text_eq(v, "Unknown");
    assert(r == is_unknown(v@)) by {
        if r {
            assert(v@ =~= seq!['U', 'n', 'k', 'n', 'o', 'w', 'n']);
        } else if is_unknown(v@) {
            assert(v@ =~= "Unknown"@);
        }
    }
    r
}

/// A copy of a list of strings.
pub fn copy_strings(v: &Vec<String>) -> (r: Vec<String>)
    ensures
        r.deep_view() == v.deep_view(),
{
    let mut r: Vec<String> = Vec::new();
    let mut i: usize = 0;
    while i < v.len()
        invariant
            i <= v@.len(),
            r@.len() == i,
            forall|j: int| 0 <= j < i ==> r@[j]@ == v@[j]@,
        decreases v@.len() - i,
    {
        r.push(v[i].clone());
        i = i + 1;
    }
    assert(r.deep_view() =~= v.deep_view());
    r
}

/// Compares each package of a response with the stored versions. Returns
/// the changelog entries in response order and the refreshed store.
pub fn diff(packages: &Vec<PackageInfo>, store: &VersionStore) -> (r: (
    Vec<ChangelogEntry>,
    VersionStore,
))
    requires
        store.wf(),
    ensures
        r.1.wf(),
        entries_view(r.0@) == changes(packages_view(packages@), store@),
        r.1@ == refreshed(packages_view(packages@), store@),
{
    let ghost ds = packages_view(packages@);
    let mut entries: Vec<ChangelogEntry> = Vec::new();
    let mut updated = store.copy();
    let mut i: usize = 0;
    while i < packages.len()
        invariant
            ds == packages_view(packages@),
            i <= packages@.len(),
            store.wf(),
            updated.wf(),
            entries_view(entries@) == changes(ds.take(i as int), store@),
            updated@ == refreshed(ds.take(i as int), store@),
        decreases packages@.len() - i,
    {
        let p = &packages[i];
        proof {
            assert(ds.take(i + 1).drop_last() =~= ds.take(i as int));
            assert(ds.take(i + 1).last() == p@);
        }
        if !version_is_unknown(p.version.as_str()) {
            let old = store.get(p.name.as_str());
            let changed = match &old {
                Some(o) => !text_eq(o.as_str(), p.version.as_str()),
                None => true,
            };
            if changed {
                let e = ChangelogEntry {
                    name: p.name.clone(),
                    old_version: old,
                    new_version: p.version.clone(),
                    sources: copy_strings(&p.sources),
                };
                let ghost before = entries@;
                entries.push(e);
                proof {
                    assert(entries_view(entries@) =~= entries_view(before).push(e@));
                }
            }
            updated.put(p.name.as_str(), p.version.as_str());
        }
        i = i + 1;
    }
    proof {
        assert(ds.take(i as int) =~= ds);
    }
    (entries, updated)
}

/// Appending or inserting a package with an undetermined version changes
/// neither the changelog nor the refreshed store, whatever was stored.
pub proof fn lemma_unknown_is_ignored(
    a: Seq<PackageView>,
    d: PackageView,
    b: Seq<PackageView>,
    m: Map<Seq<char>, Seq<char>>,
)
    requires
        is_unknown(d.version),
    ensures
        changes(a + seq![d] + b, m) == changes(a + b, m),
        refreshed(a + seq![d] + b, m) == refreshed(a + b, m),
    decreases b.len(),
{
    if b.len() == 0 {
        assert(a + seq![d] + b =~= a.push(d));
        assert(a.push(d).drop_last() =~= a);
        assert(a + b =~= a);
    } else {
        let b0 = b.drop_last();
        lemma_unknown_is_ignored(a, d, b0, m);
        assert((a + seq![d] + b).drop_last() =~= a + seq![d] + b0);
        assert((a + b).drop_last() =~= a + b0);
        assert((a + seq![d] + b).last() == b.last());
        assert((a + b).last() == b.last());
    }
}

/// Every entry that a package yields stands in the changelog.
pub proof fn lemma_entry_in_changes(ds: Seq<PackageView>, m: Map<Seq<char>, Seq<char>>, i: int)
    requires
        0 <= i < ds.len(),
        entry_for(ds[i], m) is Some,
    ensures
        changes(ds, m).contains(entry_for(ds[i], m)->Some_0),
    decreases ds.len(),
{
    let e = entry_for(ds[i], m)->Some_0;
    if i == ds.len() - 1 {
        let prev = changes(ds.drop_last(), m);
        assert(changes(ds, m) == prev.push(e));
        assert(prev.push(e)[prev.len() as int] == e);
    } else {
        assert(ds.drop_last()[i] == ds[i]);
        lemma_entry_in_changes(ds.drop_last(), m, i);
        let prev = changes(ds.drop_last(), m);
        let j = choose|j: int| 0 <= j < prev.len() && prev[j] == e;
        match entry_for(ds.last(), m) {
            Some(x) => {
                assert(prev.push(x)[j] == e);
            },
            None => {},
        }
    }
}

/// A package whose name the store lacks yields an entry with no old
/// version, and the refreshed store records the name.
pub proof fn lemma_new_name_is_recorded(
    ds: Seq<PackageView>,
    m: Map<Seq<char>, Seq<char>>,
    i: int,
)
    requires
        0 <= i < ds.len(),
        !is_unknown(ds[i].version),
        !m.contains_key(ds[i].name),
    ensures
        changes(ds, m).contains(
            EntryView {
                name: ds[i].name,
                old_version: None,
                new_version: ds[i].version,
                sources: ds[i].sources,
            },
        ),
        refreshed(ds, m).contains_key(ds[i].name),
{
    lemma_entry_in_changes(ds, m, i);
    lemma_refreshed_has(ds, m, i);
}

/// The refreshed store holds every name with a determined version.
pub proof fn lemma_refreshed_has(ds: Seq<PackageView>, m: Map<Seq<char>, Seq<char>>, i: int)
    requires
        0 <= i < ds.len(),
        !is_unknown(ds[i].version),
    ensures
        refreshed(ds, m).contains_key(ds[i].name),
    decreases ds.len(),
{
    if i < ds.len() - 1 {
        assert(ds.drop_last()[i] == ds[i]);
        lemma_refreshed_has(ds.drop_last(), m, i);
    }
}

/// Names are pairwise distinct.
pub open spec fn distinct_names(ds: Seq<PackageView>) -> bool {
    forall|i: int, j: int| 0 <= i < j < ds.len() ==> ds[i].name != ds[j].name
}

/// With distinct names, the refreshed store holds each determined version.
pub proof fn lemma_refreshed_value(ds: Seq<PackageView>, m: Map<Seq<char>, Seq<char>>, i: int)
    requires
        distinct_names(ds),
        0 <= i < ds.len(),
        !is_unknown(ds[i].version),
    ensures
        refreshed(ds, m).contains_key(ds[i].name),
        refreshed(ds, m)[ds[i].name] == ds[i].version,
    decreases ds.len(),
{
    if i < ds.len() - 1 {
        let q = ds.drop_last();
        assert(q[i] == ds[i]);
        assert(distinct_names(q));
        lemma_refreshed_value(q, m, i);
        assert(ds.last().name != ds[i].name);
    }
}

/// A response with distinct names checked twice, the second time against
/// the store that the first produced, yields no entries the second time.
pub proof fn lemma_diff_idempotent(ds: Seq<PackageView>, m: Map<Seq<char>, Seq<char>>)
    requires
        distinct_names(ds),
    ensures
        changes(ds, refreshed(ds, m)).len() == 0,
{
    let m2 = refreshed(ds, m);
    assert forall|i: int| 0 <= i < ds.len() implies entry_for(ds[i], m2) is None by {
        if !is_unknown(ds[i].version) {
            lemma_refreshed_value(ds, m, i);
        }
    }
    lemma_no_entries(ds, m2);
}

proof fn lemma_no_entries(ds: Seq<PackageView>, m: Map<Seq<char>, Seq<char>>)
    requires
        forall|i: int| 0 <= i < ds.len() ==> entry_for(ds[i], m) is None,
    ensures
        changes(ds, m).len() == 0,
    decreases ds.len(),
{
    if ds.len() > 0 {
        let q = ds.drop_last();
        assert forall|i: int| 0 <= i < q.len() implies entry_for(q[i], m) is None by {
            assert(q[i] == ds[i]);
        }
        lemma_no_entries(q, m);
        assert(entry_for(ds[ds.len() - 1], m) is None);
    }
}

/// The old version as shown: empty when there was none.
pub open spec fn old_text(e: EntryView) -> Seq<char> {
    match e.old_version {
        Some(v) => v,
        None => Seq::empty(),
    }
}

/// `name old -> new`, the heading of an entry in both reports.
pub open spec fn heading(e: EntryView) -> Seq<char> {
    e.name + seq![' '] + old_text(e) + seq![' ', '-', '>', ' '] + e.new_version + seq!['\n']
}

/// The short report of a non-empty changelog: one heading per entry.
pub open spec fn short_text(es: Seq<EntryView>) -> Seq<char>
    decreases es.len(),
{
    if es.len() == 0 {
        Seq::empty()
    } else {
        short_text(es.drop_last()) + heading(es.last())
    }
}

/// What the short report says when nothing changed.
pub open spec fn no_changes() -> Seq<char> {
    seq!['N', 'o', ' ', 'c', 'h', 'a', 'n', 'g', 'e', 's', '\n']
}

pub open spec fn short_report_text(es: Seq<EntryView>) -> Seq<char> {
    if es.len() == 0 {
        no_changes()
    } else {
        short_text(es)
    }
}

/// One source line of the long report.
pub open spec fn source_line(s: Seq<char>) -> Seq<char> {
    seq![' ', ' ', ' ', ' ', '|', ' ', '-', ' '] + s + seq!['\n']
}

pub open spec fn sources_text(ss: Seq<Seq<char>>) -> Seq<char>
    decreases ss.len(),
{
    if ss.len() == 0 {
        Seq::empty()
    } else {
        sources_text(ss.drop_last()) + source_line(ss.last())
    }
}

/// The block of one entry in the long report: its heading, then every source.
pub open spec fn long_block(e: EntryView) -> Seq<char> {
    heading(e) + seq!['|', ' ', '-', ' ', 'S', 'o', 'u', 'r', 'c', 'e', 's', ':', '\n']
        + sources_text(e.sources) + seq!['\n']
}

/// The long report: one block per entry; empty when nothing changed.
pub open spec fn long_text(es: Seq<EntryView>) -> Seq<char>
    decreases es.len(),
{
    if es.len() == 0 {
        Seq::empty()
    } else {
        long_text(es.drop_last()) + long_block(es.last())
    }
}

fn append_heading(out: &mut String, e: &ChangelogEntry)
    ensures
        final(out)@ == old(out)@ + heading(e@),
{
    proof {
        reveal_strlit(" ");
        reveal_strlit(" -> ");
        reveal_strlit("\n");
    }
    out.append(e.name.as_str());
    out.append(" ");
    match &e.old_version {
        Some(v) => out.append(v.as_str()),
        None => {},
    }
    out.append(" -> ");
    out.append(e.new_version.as_str());
    out.append("\n");
    assert(out@ =~= old(out)@ + heading(e@));
}

/// The short report of a changelog.
pub fn render_short(entries: &Vec<ChangelogEntry>) -> (r: String)
    ensures
        r@ == short_report_text(entries_view(entries@)),
{
    let ghost es = entries_view(entries@);
    if entries.len() == 0 {
        proof {
            reveal_strlit("No changes\n");
        }
        let r = String::from_str("No changes\n");
        assert(r@ =~= no_changes());
        return r;
    }
    let mut out = String::new();
    let mut i: usize = 0;
    while i < entries.len()
        invariant
            es == entries_view(entries@),
            i <= entries@.len(),
            out@ == short_text(es.take(i as int)),
        decreases entries@.len() - i,
    {
        proof {
            assert(es.take(i + 1).drop_last() =~= es.take(i as int));
        }
        append_heading(&mut out, &entries[i]);
        i = i + 1;
    }
    assert(es.take(i as int) =~= es);
    out
}

/// The long report of a changelog.
pub fn render_long(entries: &Vec<ChangelogEntry>) -> (r: String)
    ensures
        r@ == long_text(entries_view(entries@)),
{
    let ghost es = entries_view(entries@);
    let mut out = String::new();
    let mut i: usize = 0;
    proof {
        reveal_strlit("| - Sources:\n");
        reveal_strlit("    | - ");
        reveal_strlit("\n");
    }
    assert(out@ =~= long_text(es.take(0)));
    while i < entries.len()
        invariant
            es == entries_view(entries@),
            i <= entries@.len(),
            out@ == long_text(es.take(i as int)),
        decreases entries@.len() - i,
    {
        let e = &entries[i];
        let ghost start = out@;
        proof {
            reveal_strlit("| - Sources:\n");
            reveal_strlit("\n");
        }
        append_heading(&mut out, e);
        out.append("| - Sources:\n");
        let ghost mid = out@;
        assert(mid =~= start + heading(e@) + seq!['|', ' ', '-', ' ', 'S', 'o', 'u', 'r', 'c', 'e', 's', ':', '\n']);
        let mut j: usize = 0;
        while j < e.sources.len()
            invariant
                j <= e.sources@.len(),
                out@ == mid + sources_text(e.sources.deep_view().take(j as int)),
            decreases e.sources@.len() - j,
        {
            proof {
                assert(e.sources.deep_view().take(j + 1).drop_last() =~= e.sources.deep_view().take(
                    j as int,
                ));
            }
            let ghost before = out@;
            proof {
                reveal_strlit("    | - ");
                reveal_strlit("\n");
            }
            out.append("    | - ");
            out.append(e.sources[j].as_str());
            out.append("\n");
            proof {
                let dv = e.sources.deep_view();
                assert(dv[j as int] == e.sources@[j as int]@);
                assert(dv.take(j + 1).last() == dv[j as int]);
                assert(out@ =~= before + source_line(dv[j as int]));
                assert(out@ =~= mid + sources_text(e.sources.deep_view().take(j + 1)));
            }
            j = j + 1;
        }
        out.append("\n");
        proof {
            assert(e.sources.deep_view().take(j as int) =~= e.sources.deep_view());
            assert(es.take(i + 1).drop_last() =~= es.take(i as int));
            assert(es[i as int] == e@);
            assert(e@.sources == e.sources.deep_view());
            assert(out@ =~= start + long_block(e@));
        }
        i = i + 1;
    }
    assert(es.take(i as int) =~= es);
    out
}

/// The file name and content of each long-report file: none when nothing
/// changed; otherwise an always-overwritten latest copy and one archived
/// under the timestamp.
pub open spec fn report_files_spec(es: Seq<EntryView>, stamp: Seq<char>) -> Seq<
    (Seq<char>, Seq<char>),
> {
    if es.len() == 0 {
        Seq::empty()
    } else {
        seq![
            (seq!['l', 'a', 't', 'e', 's', 't', '.', 't', 'x', 't'], long_text(es)),
            (
                seq!['r', 'e', 'p', 'o', 'r', 't', '_'] + stamp + seq!['.', 't', 'x', 't'],
                long_text(es),
            ),
        ]
    }
}

/// With no changes, no long-report file is written and the short report
/// says so.
pub proof fn lemma_no_changes_no_files(ds: Seq<PackageView>, m: Map<Seq<char>, Seq<char>>, stamp: Seq<char>)
    requires
        changes(ds, m).len() == 0,
    ensures
        report_files_spec(changes(ds, m), stamp).len() == 0,
        short_report_text(changes(ds, m)) == no_changes(),
{
}

/// Turns a server response into a changelog and its reports.
pub struct ChangelogGenerator {
    short_changelog: String,
    long_changelog: String,
    entries: Vec<ChangelogEntry>,
}

impl ChangelogGenerator {
    pub closed spec fn entries_spec(&self) -> Seq<EntryView> {
        entries_view(self.entries@)
    }

    /// The reports agree with the entries.
    pub closed spec fn wf(&self) -> bool {
        &&& self.short_changelog@ == short_report_text(self.entries_spec())
        &&& self.long_changelog@ == long_text(self.entries_spec())
    }

    /// A generator with no changes yet.
    pub fn new() -> (r: ChangelogGenerator)
        ensures
            r.wf(),
            r.entries_spec().len() == 0,
    {
        let entries: Vec<ChangelogEntry> = Vec::new();
        let short_changelog = render_short(&entries);
        let long_changelog = render_long(&entries);
        ChangelogGenerator { short_changelog, long_changelog, entries }
    }

    /// Diffs the packages against the store, keeps the changelog and its
    /// reports, and returns the refreshed store.
    pub fn generate_changelog(&mut self, packages: &Vec<PackageInfo>, store: &VersionStore) -> (r:
        VersionStore)
        requires
            store.wf(),
        ensures
            final(self).wf(),
            final(self).entries_spec() == changes(packages_view(packages@), store@),
            r.wf(),
            r@ == refreshed(packages_view(packages@), store@),
    {
        let (entries, updated) = diff(packages, store);
        self.short_changelog = render_short(&entries);
        self.long_changelog = render_long(&entries);
        self.entries = entries;
        updated
    }

    /// The entries, in response order.
    pub fn entries(&self) -> (r: &Vec<ChangelogEntry>)
        ensures
            entries_view(r@) == self.entries_spec(),
    {
        &self.entries
    }

    /// One `name old -> new` line per entry, or the no-changes line.
    pub fn short_report(&self) -> (r: &str)
        requires
            self.wf(),
        ensures
            r@ == short_report_text(self.entries_spec()),
    {
        self.short_changelog.as_str()
    }

    /// One block per entry naming every source.
    pub fn full_report(&self) -> (r: &str)
        requires
            self.wf(),
        ensures
            r@ == long_text(self.entries_spec()),
    {
        self.long_changelog.as_str()
    }

    /// The long-report files to write, as (file name, content) pairs.
    pub fn report_files(&self, stamp: &str) -> (r: Vec<(String, String)>)
        requires
            self.wf(),
        ensures
            r@.map_values(|f: (String, String)| (f.0@, f.1@)) == report_files_spec(
                self.entries_spec(),
                stamp@,
            ),
    {
        let mut r: Vec<(String, String)> = Vec::new();
        if self.entries.len() > 0 {
            proof {
                reveal_strlit("latest.txt");
                reveal_strlit("report_");
                reveal_strlit(".txt");
            }
            let latest = String::from_str("latest.txt");
            let mut dated = String::from_str("report_");
            dated.append(stamp);
            dated.append(".txt");
            r.push((latest, self.long_changelog.clone()));
            r.push((dated, self.long_changelog.clone()));
            assert(r@.len() == 2);
            assert(r@[0].0@ =~= seq!['l', 'a', 't', 'e', 's', 't', '.', 't', 'x', 't']);
            assert(r@[1].0@ =~= seq!['r', 'e', 'p', 'o', 'r', 't', '_'] + stamp@ + seq!['.', 't', 'x', 't']);
            assert(r@[0].1@ == long_text(self.entries_spec()));
            assert(r@[1].1@ == long_text(self.entries_spec()));
            assert(r@.map_values(|f: (String, String)| (f.0@, f.1@)) =~= report_files_spec(
                self.entries_spec(),
                stamp@,
            ));
        } else {
            assert(r@.map_values(|f: (String, String)| (f.0@, f.1@)) =~= report_files_spec(
                self.entries_spec(),
                stamp@,
            ));
        }
        r
    }

    /// The long report under a line that gives when it was generated; none
    /// when nothing changed.
    pub fn dated_report(&self, generated_at: &str) -> (r: Option<String>)
        requires
            self.wf(),
        ensures
            self.entries_spec().len() == 0 ==> r is None,
            self.entries_spec().len() > 0 ==> (r matches Some(t) && t@ == seq![
                'U', 'p', 'd', 'a', 't', 'e', ' ', 'r', 'e', 'p', 'o', 'r', 't', ' ',
                'g', 'e', 'n', 'e', 'r', 'a', 't', 'e', 'd', ' ', 'a', 't', ' ',
            ] + generated_at@ + seq!['\n', '\n'] + long_text(self.entries_spec())),
    {
        if self.entries.len() == 0 {
            return None;
        }
        proof {
            reveal_strlit("Update report generated at ");
            reveal_strlit("\n\n");
        }
        let mut r = String::from_str("Update report generated at ");
        r.append(generated_at);
        r.append("\n\n");
        r.append(self.long_changelog.as_str());
        assert(r@ =~= seq![
            'U', 'p', 'd', 'a', 't', 'e', ' ', 'r', 'e', 'p', 'o', 'r', 't', ' ',
            'g', 'e', 'n', 'e', 'r', 'a', 't', 'e', 'd', ' ', 'a', 't', ' ',
        ] + generated_at@ + seq!['\n', '\n'] + long_text(self.entries_spec()));
        Some(r)
    }
}

} // verus!
