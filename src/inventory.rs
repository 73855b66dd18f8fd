use vstd::prelude::*;
use crate::store::{
    index_of_newline, lemma_index_of_newline, lemma_map_of_push, map_of, pairs_view, text_eq, PairsView,
    VersionStore,
};
use crate::request::lines_of;

verus! {

/// The operating systems whose installed software can be listed.
#[derive(Debug, Clone, Copy, PartialEq, Eq)]
pub enum Platform {
    Windows,
    MacOs,
    Linux,
    Unknown,
}

/// Relies on `whoami::platform`: the operating system the program was built
/// for. Anything but the three listed ones counts as unknown.
#[verifier::external_body]
fn host_platform() -> (r: Platform) {
    match whoami::platform() {
        whoami::Platform::Windows => Platform::Windows,
        whoami::Platform::MacOS => Platform::MacOs,
        whoami::Platform::Linux => Platform::Linux,
        _ => Platform::Unknown,
    }
}

pub open spec fn platform_name(p: Platform) -> Seq<char> {
    match p {
        Platform::Windows => seq!['w', 'i', 'n', 'd', 'o', 'w', 's'],
        Platform::MacOs => seq!['m', 'a', 'c', 'o', 's'],
        Platform::Linux => seq!['l', 'i', 'n', 'u', 'x'],
        Platform::Unknown => seq!['u', 'n', 'k', 'n', 'o', 'w', 'n'],
    }
}

/// The name of a platform.
pub fn platform_text(p: Platform) -> (r: String)
    ensures
        r@ == platform_name(p),
{
    proof {
        reveal_strlit("windows");
        reveal_strlit("macos");
        reveal_strlit("linux");
        reveal_strlit("unknown");
    }
    let r = match p {
        Platform::Windows => String::from_str("windows"),
        Platform::MacOs => String::from_str("macos"),
        Platform::Linux => String::from_str("linux"),
        Platform::Unknown => String::from_str("unknown"),
    };
    assert(r@ =~= platform_name(p));
    r
}

/// Where a listing of installed software comes from.
#[derive(Debug, Clone, Copy, PartialEq, Eq)]
pub enum Probe {
    /// The 32-bit uninstall registry key, as CSV with a header line.
    RegistryWow64,
    /// The 64-bit uninstall registry key, as CSV with a header line.
    Registry,
    /// Bundles under /Applications, one `name,version` line each.
    MacApplications,
    /// `brew list --versions`.
    Homebrew,
    /// `dpkg -l`.
    Dpkg,
    /// `rpm -qa` as `name,version-release` lines.
    Rpm,
    /// `pacman -Q`.
    Pacman,
    /// `flatpak list --app --columns=application,version`.
    Flatpak,
    /// `snap list`, with a header line.
    Snap,
}

/// The platform has no way to list installed software.
#[derive(Debug, Clone, Copy, PartialEq, Eq)]
pub enum InventoryError {
    UnsupportedPlatform,
}

/// Lists installed applications and their versions on the host.
pub struct AppFinder {
    pub platform: String,
}

pub open spec fn probes_for(platform: Seq<char>) -> Option<Seq<Probe>> {
    if platform == platform_name(Platform::Windows) {
        Some(seq![Probe::RegistryWow64, Probe::Registry])
    } else if platform == platform_name(Platform::MacOs) {
        Some(seq![Probe::MacApplications, Probe::Homebrew])
    } else if platform == platform_name(Platform::Linux) {
        Some(seq![Probe::Dpkg, Probe::Rpm, Probe::Pacman, Probe::Flatpak, Probe::Snap])
    } else {
        None
    }
}

impl AppFinder {
    /// A finder for the platform the program was built for.
    pub fn new() -> (r: AppFinder)
        ensures
            exists|p: Platform| r.platform@ == platform_name(p),
    {
        let p = host_platform();
        AppFinder { platform: platform_text(p) }
    }

    /// A finder for a given platform.
    pub fn for_platform(p: Platform) -> (r: AppFinder)
        ensures
            r.platform@ == platform_name(p),
    {
        AppFinder { platform: platform_text(p) }
    }

    /// The listings to gather on this platform, in merge order.
    pub fn probes(&self) -> (r: Result<Vec<Probe>, InventoryError>)
        ensures
            match probes_for(self.platform@) {
                Some(ps) => r matches Ok(v) && v@ == ps,
                None => r == Err::<Vec<Probe>, InventoryError>(InventoryError::UnsupportedPlatform),
            },
    {
        let w = platform_text(Platform::Windows);
        let m = platform_text(Platform::MacOs);
        let l = platform_text(Platform::Linux);
        if text_eq(self.platform.as_str(), w.as_str()) {
            let r = vec![Probe::RegistryWow64, Probe::Registry];
            assert(r@ =~= seq![Probe::RegistryWow64, Probe::Registry]);
            Ok(r)
        } else if text_eq(self.platform.as_str(), m.as_str()) {
            let r = vec![Probe::MacApplications, Probe::Homebrew];
            assert(r@ =~= seq![Probe::MacApplications, Probe::Homebrew]);
            Ok(r)
        } else if text_eq(self.platform.as_str(), l.as_str()) {
            let r = vec![Probe::Dpkg, Probe::Rpm, Probe::Pacman, Probe::Flatpak, Probe::Snap];
            assert(r@ =~= seq![Probe::Dpkg, Probe::Rpm, Probe::Pacman, Probe::Flatpak, Probe::Snap]);
            Ok(r)
        } else {
            Err(InventoryError::UnsupportedPlatform)
        }
    }
}

/// The white-space separated words of a text.
pub uninterp spec fn words_of(s: Seq<char>) -> Seq<Seq<char>>;

/// Relies on `str::split_whitespace`: the words between runs of white space.
#[verifier::external_body]
fn words(s: &str) -> (r: Vec<&str>)
    ensures
        r@.len() == words_of(s@).len(),
        forall|i: int| 0 <= i < r@.len() ==> r@[i]@ == words_of(s@)[i],
{
    s.split_whitespace().collect()
}

/// Index of the first `c` in `t`, or its length when there is none.
pub open spec fn index_of_char(t: Seq<char>, c: char) -> int
    decreases t.len(),
{
    if t.len() == 0 {
        0
    } else if t[0] == c {
        0
    } else {
        1 + index_of_char(t.drop_first(), c)
    }
}

proof fn lemma_index_of_char(t: Seq<char>, c: char, m: int)
    requires
        0 <= m <= t.len(),
        forall|j: int| 0 <= j < m ==> t[j] != c,
        m == t.len() || t[m] == c,
    ensures
        index_of_char(t, c) == m,
    decreases t.len(),
{
    if t.len() > 0 && m > 0 {
        let u = t.drop_first();
        assert forall|j: int| 0 <= j < m - 1 implies u[j] != c by {
            assert(u[j] == t[j + 1]);
        }
        if m < t.len() {
            assert(u[m - 1] == t[m]);
        }
        lemma_index_of_char(u, c, m - 1);
    }
}

/// The pieces of `t` between occurrences of `c`; one piece when `c` does
/// not occur.
pub open spec fn split_on(t: Seq<char>, c: char) -> Seq<Seq<char>>
    decreases t.len(),
{
    let k = index_of_char(t, c);
    if 0 <= k < t.len() {
        seq![t.subrange(0, k)] + split_on(t.subrange(k + 1, t.len() as int), c)
    } else {
        seq![t]
    }
}

/// Splits a text at every occurrence of `c`.
pub fn split_char(s: &str, c: char) -> (r: Vec<String>)
    ensures
        r.deep_view() == split_on(s@, c),
{
    let n = s.unicode_len();
    let ghost t = s@;
    let mut r: Vec<String> = Vec::new();
    let mut pos: usize = 0;
    proof {
        assert(t.subrange(0, n as int) =~= t);
        assert(r.deep_view() + split_on(t, c) =~= split_on(t, c));
    }
    loop
        invariant
            n == t.len(),
            t == s@,
            pos <= n,
            r.deep_view() + split_on(t.subrange(pos as int, n as int), c) == split_on(t, c),
        decreases n - pos,
    {
        let ghost u = t.subrange(pos as int, n as int);
        let mut k: usize = pos;
        while k < n && s.get_char(k) != c
            invariant
                pos <= k <= n,
                n == t.len(),
                t == s@,
                forall|j: int| pos <= j < k ==> t[j] != c,
            decreases n - k,
        {
            k = k + 1;
        }
        proof {
            lemma_index_of_char(u, c, k - pos);
        }
        let piece = s.substring_char(pos, k);
        let ghost before = r.deep_view();
        r.push(String::from_str(piece));
        proof {
            assert(r.deep_view() =~= before.push(piece@));
            assert(piece@ =~= u.subrange(0, k - pos));
        }
        if k == n {
            proof {
                assert(split_on(u, c) == seq![u]);
                assert(u =~= piece@);
                assert(before + seq![u] =~= before.push(piece@));
            }
            return r;
        }
        proof {
            let rest = t.subrange(k + 1, n as int);
            assert(u.subrange(k - pos + 1, u.len() as int) =~= rest);
            assert(before + split_on(u, c) =~= before.push(piece@) + split_on(rest, c));
        }
        pos = k + 1;
    }
}

/// The text without leading and trailing double quotes.
pub open spec fn strip_quotes_front(s: Seq<char>) -> Seq<char>
    decreases s.len(),
{
    if s.len() > 0 && s[0] == '"' {
        strip_quotes_front(s.drop_first())
    } else {
        s
    }
}

pub open spec fn strip_quotes_back(s: Seq<char>) -> Seq<char>
    decreases s.len(),
{
    if s.len() > 0 && s.last() == '"' {
        strip_quotes_back(s.drop_last())
    } else {
        s
    }
}

pub open spec fn strip_quotes(s: Seq<char>) -> Seq<char> {
    strip_quotes_back(strip_quotes_front(s))
}

/// A CSV field without the double quotes around it.
pub fn unquote(s: &str) -> (r: String)
    ensures
        r@ == strip_quotes(s@),
{
    let n = s.unicode_len();
    let mut a: usize = 0;
    proof {
        assert(s@.subrange(0, n as int) =~= s@);
    }
    while a < n && s.get_char(a) == '"'
        invariant
            a <= n,
            n == s@.len(),
            strip_quotes_front(s@) == strip_quotes_front(s@.subrange(a as int, n as int)),
        decreases n - a,
    {
        proof {
            assert(s@.subrange(a as int, n as int).drop_first() =~= s@.subrange(a + 1, n as int));
        }
        a = a + 1;
    }
    let ghost f = s@.subrange(a as int, n as int);
    let mut b: usize = n;
    while b > a && s.get_char(b - 1) == '"'
        invariant
            a <= b <= n,
            n == s@.len(),
            f == s@.subrange(a as int, n as int),
            strip_quotes_back(f) == strip_quotes_back(s@.subrange(a as int, b as int)),
        decreases b - a,
    {
        proof {
            assert(s@.subrange(a as int, b as int).drop_last() =~= s@.subrange(a as int, b - 1));
        }
        b = b - 1;
    }
    proof {
        assert(f =~= strip_quotes_front(s@));
    }
    String::from_str(s.substring_char(a, b))
}

/// How one line of a listing gives a name and a version.
#[derive(Debug, Clone, Copy, PartialEq, Eq)]
pub enum RowFormat {
    /// Comma-separated, at least two fields, quotes stripped, name not empty.
    Csv,
    /// Exactly two fields around the separator.
    Pair(char),
    /// A `dpkg -l` line of an installed package: starts with `ii`, then
    /// name and version as the second and third words.
    Dpkg,
    /// Exactly two words.
    TwoWords,
    /// At least two words; the first two count.
    LeadingWords,
}

/// The name and version that one line gives, if any.
pub open spec fn row_pair(l: Seq<char>, f: RowFormat) -> Option<(Seq<char>, Seq<char>)> {
    match f {
        RowFormat::Csv => {
            let parts = split_on(l, ',');
            if parts.len() >= 2 && strip_quotes(parts[0]).len() > 0 {
                Some((strip_quotes(parts[0]), strip_quotes(parts[1])))
            } else {
                None
            }
        },
        RowFormat::Pair(c) => {
            let parts = split_on(l, c);
            if parts.len() == 2 {
                Some((parts[0], parts[1]))
            } else {
                None
            }
        },
        RowFormat::Dpkg => {
            let w = words_of(l);
            if l.len() >= 2 && l[0] == 'i' && l[1] == 'i' && w.len() >= 3 {
                Some((w[1], w[2]))
            } else {
                None
            }
        },
        RowFormat::TwoWords => {
            let w = words_of(l);
            if w.len() == 2 {
                Some((w[0], w[1]))
            } else {
                None
            }
        },
        RowFormat::LeadingWords => {
            let w = words_of(l);
            if w.len() >= 2 {
                Some((w[0], w[1]))
            } else {
                None
            }
        },
    }
}

/// Reads one line of a listing.
pub fn parse_row(l: &str, f: RowFormat) -> (r: Option<(String, String)>)
    ensures
        match r {
            Some(p) => row_pair(l@, f) == Some((p.0@, p.1@)),
            None => row_pair(l@, f) is None,
        },
{
    match f {
        RowFormat::Csv => {
            let parts = split_char(l, ',');
            if parts.len() >= 2 {
                proof {
                    assert(parts.deep_view()[0] == parts@[0]@);
                    assert(parts.deep_view()[1] == parts@[1]@);
                }
                let name = unquote(parts[0].as_str());
                if name.as_str().unicode_len() > 0 {
                    return Some((name, unquote(parts[1].as_str())));
                }
            }
            None
        },
        RowFormat::Pair(c) => {
            let parts = split_char(l, c);
            if parts.len() == 2 {
                proof {
                    assert(parts.deep_view()[0] == parts@[0]@);
                    assert(parts.deep_view()[1] == parts@[1]@);
                }
                Some((parts[0].clone(), parts[1].clone()))
            } else {
                None
            }
        },
        RowFormat::Dpkg => {
            let n = l.unicode_len();
            if n < 2 || l.get_char(0) != 'i' || l.get_char(1) != 'i' {
                return None;
            }
            let w = words(l);
            if w.len() >= 3 {
                Some((String::from_str(w[1]), String::from_str(w[2])))
            } else {
                None
            }
        },
        RowFormat::TwoWords => {
            let w = words(l);
            if w.len() == 2 {
                Some((String::from_str(w[0]), String::from_str(w[1])))
            } else {
                None
            }
        },
        RowFormat::LeadingWords => {
            let w = words(l);
            if w.len() >= 2 {
                Some((String::from_str(w[0]), String::from_str(w[1])))
            } else {
                None
            }
        },
    }
}

/// How each probe's listing is read.
pub open spec fn row_format(p: Probe) -> RowFormat {
    match p {
        Probe::RegistryWow64 | Probe::Registry => RowFormat::Csv,
        Probe::MacApplications => RowFormat::Pair('\t'),
        Probe::Rpm => RowFormat::Pair(','),
        Probe::Dpkg => RowFormat::Dpkg,
        Probe::Pacman => RowFormat::TwoWords,
        Probe::Homebrew | Probe::Flatpak | Probe::Snap => RowFormat::LeadingWords,
    }
}

pub fn probe_format(p: Probe) -> (r: RowFormat)
    ensures
        r == row_format(p),
{
    match p {
        Probe::RegistryWow64 | Probe::Registry => RowFormat::Csv,
        Probe::MacApplications => RowFormat::Pair('\t'),
        Probe::Rpm => RowFormat::Pair(','),
        Probe::Dpkg => RowFormat::Dpkg,
        Probe::Pacman => RowFormat::TwoWords,
        Probe::Homebrew | Probe::Flatpak | Probe::Snap => RowFormat::LeadingWords,
    }
}

/// Whether a probe's first line is a header to skip.
pub open spec fn has_header(p: Probe) -> bool {
    p == Probe::RegistryWow64 || p == Probe::Registry || p == Probe::Snap
}

pub fn probe_has_header(p: Probe) -> (r: bool)
    ensures
        r == has_header(p),
{
    match p {
        Probe::RegistryWow64 | Probe::Registry | Probe::Snap => true,
        _ => false,
    }
}

/// A line without the carriage return that may end it.
pub open spec fn strip_cr(l: Seq<char>) -> Seq<char> {
    if l.len() > 0 && l.last() == '\r' {
        l.drop_last()
    } else {
        l
    }
}

/// The pairs that the lines of a listing give, in order.
pub open spec fn listing_pairs(ls: Seq<Seq<char>>, f: RowFormat) -> PairsView
    decreases ls.len(),
{
    if ls.len() == 0 {
        Seq::empty()
    } else {
        let prev = listing_pairs(ls.drop_last(), f);
        match row_pair(strip_cr(ls.last()), f) {
            Some(p) => prev.push(p),
            None => prev,
        }
    }
}

pub open spec fn listing_body(p: Probe, ls: Seq<Seq<char>>) -> Seq<Seq<char>> {
    if has_header(p) && ls.len() > 0 {
        ls.drop_first()
    } else {
        ls
    }
}

/// The name-version pairs of one probe's output.
pub open spec fn probe_pairs(p: Probe, text: Seq<char>) -> PairsView {
    listing_pairs(listing_body(p, lines_of(text)), row_format(p))
}

/// Reads the output of one probe.
pub fn parse_listing(p: Probe, text: &str) -> (r: Vec<(String, String)>)
    ensures
        pairs_view(r@) == probe_pairs(p, text@),
{
    let f = probe_format(p);
    let n = text.unicode_len();
    let ghost t = text@;
    let mut r: Vec<(String, String)> = Vec::new();
    let ghost mut done: Seq<Seq<char>> = Seq::empty();
    let mut pos: usize = 0;
    let mut first = true;
    proof {
        assert(t.subrange(0, n as int) =~= t);
        assert(done + lines_of(t) =~= lines_of(t));
        assert(pairs_view(r@) =~= listing_pairs(listing_body(p, done), f));
    }
    while pos < n
        invariant
            n == t.len(),
            t == text@,
            f == row_format(p),
            pos <= n,
            first == (done.len() == 0),
            pairs_view(r@) == listing_pairs(listing_body(p, done), f),
            lines_of(t) == done + lines_of(t.subrange(pos as int, n as int)),
        decreases n - pos,
    {
        let ghost u = t.subrange(pos as int, n as int);
        let mut k: usize = pos;
        while k < n && text.get_char(k) != '\n'
            invariant
                pos <= k <= n,
                n == t.len(),
                t == text@,
                forall|j: int| pos <= j < k ==> t[j] != '\n',
            decreases n - k,
        {
            k = k + 1;
        }
        proof {
            lemma_index_of_newline(u, k - pos);
        }
        let raw = text.substring_char(pos, k);
        let m = raw.unicode_len();
        let line = if m > 0 && raw.get_char(m - 1) == '\r' {
            raw.substring_char(0, m - 1)
        } else {
            raw
        };
        proof {
            if m > 0 && raw@.last() == '\r' {
                assert(line@ =~= raw@.drop_last());
            }
        }
        let ghost body_before = listing_body(p, done);
        if !(first && probe_has_header(p)) {
            let ghost before = pairs_view(r@);
            match parse_row(line, f) {
                Some(pair) => {
                    r.push(pair);
                    assert(pairs_view(r@) =~= before.push((pair.0@, pair.1@)));
                },
                None => {},
            }
        }
        let next: usize = if k < n { k + 1 } else { n };
        proof {
            assert(raw@ =~= u.subrange(0, k - pos));
            let rest = t.subrange(next as int, n as int);
            if k < n {
                assert(u.subrange(k - pos + 1, u.len() as int) =~= rest);
            } else {
                assert(rest =~= Seq::<char>::empty());
            }
            assert(lines_of(u) == seq![raw@] + lines_of(rest));
            assert(done + lines_of(u) =~= done.push(raw@) + lines_of(rest));
            let nd = done.push(raw@);
            if has_header(p) {
                if done.len() == 0 {
                    assert(listing_body(p, nd) =~= Seq::<Seq<char>>::empty());
                } else {
                    assert(listing_body(p, nd) =~= body_before.push(raw@));
                    assert(listing_body(p, nd).drop_last() =~= body_before);
                }
            } else {
                assert(listing_body(p, nd).drop_last() =~= body_before);
            }
            done = nd;
        }
        first = false;
        pos = next;
    }
    proof {
        assert(t.subrange(pos as int, n as int) =~= Seq::<char>::empty());
        assert(done + Seq::<Seq<char>>::empty() =~= done);
    }
    r
}

/// All pairs of a sequence of probe outputs, in order.
pub open spec fn gathered(outs: Seq<(Probe, String)>) -> PairsView
    decreases outs.len(),
{
    if outs.len() == 0 {
        Seq::empty()
    } else {
        gathered(outs.drop_last()) + probe_pairs(outs.last().0, outs.last().1@)
    }
}

impl AppFinder {
    /// Merges the outputs of the probes into one name-to-version mapping;
    /// a later listing wins where two name the same package.
    pub fn get_installed_apps(&self, outputs: &Vec<(Probe, String)>) -> (r: Result<
        VersionStore,
        InventoryError,
    >)
        ensures
            probes_for(self.platform@) is None ==> r == Err::<VersionStore, InventoryError>(
                InventoryError::UnsupportedPlatform,
            ),
            probes_for(self.platform@) is Some ==> (r matches Ok(s) && s.wf() && s@ == map_of(
                gathered(outputs@),
            )),
    {
        match self.probes() {
            Err(e) => {
                return Err(e);
            },
            Ok(_) => {},
        }
        let mut store = VersionStore::new();
        let ghost mut acc: PairsView = Seq::empty();
        let mut i: usize = 0;
        assert(map_of(acc) =~= Map::<Seq<char>, Seq<char>>::empty());
        while i < outputs.len()
            invariant
                i <= outputs@.len(),
                store.wf(),
                acc == gathered(outputs@.take(i as int)),
                store@ == map_of(acc),
            decreases outputs@.len() - i,
        {
            let pairs = parse_listing(outputs[i].0, outputs[i].1.as_str());
            let ghost start = acc;
            let mut j: usize = 0;
            while j < pairs.len()
                invariant
                    j <= pairs@.len(),
                    store.wf(),
                    acc == start + pairs_view(pairs@).take(j as int),
                    store@ == map_of(acc),
                decreases pairs@.len() - j,
            {
                store.put(pairs[j].0.as_str(), pairs[j].1.as_str());
                proof {
                    let x = pairs_view(pairs@)[j as int];
                    lemma_map_of_push(acc, x);
                    assert(start + pairs_view(pairs@).take(j + 1) =~= acc.push(x));
                    acc = acc.push(x);
                }
                j = j + 1;
            }
            proof {
                assert(pairs_view(pairs@).take(j as int) =~= pairs_view(pairs@));
                assert(outputs@.take(i + 1).drop_last() =~= outputs@.take(i as int));
                assert(outputs@.take(i + 1).last() == outputs@[i as int]);
            }
            i = i + 1;
        }
        assert(outputs@.take(i as int) =~= outputs@);
        Ok(store)
    }
}

} // verus!
