use vstd::prelude::*;

verus! {

/// Name-to-version pairs as the store holds them, viewed as strings.
pub type PairsView = Seq<(Seq<char>, Seq<char>)>;

/// The version recorded for `k`: the last pair that carries it.
pub open spec fn lookup(p: PairsView, k: Seq<char>) -> Option<Seq<char>>
    decreases p.len(),
{
    if p.len() == 0 {
        None
    } else if p.last().0 == k {
        Some(p.last().1)
    } else {
        lookup(p.drop_last(), k)
    }
}

/// The mapping that a sequence of pairs stands for.
pub open spec fn map_of(p: PairsView) -> Map<Seq<char>, Seq<char>> {
    Map::new(|k: Seq<char>| lookup(p, k) is Some, |k: Seq<char>| lookup(p, k)->Some_0)
}

/// No name occurs twice.
pub open spec fn unique_names(p: PairsView) -> bool {
    forall|i: int, j: int| 0 <= i < j < p.len() ==> p[i].0 != p[j].0
}

pub open spec fn pairs_view(v: Seq<(String, String)>) -> PairsView {
    v.map_values(|e: (String, String)| (e.0@, e.1@))
}

/// With unique names, a name's recorded version is the one at its index.
pub proof fn lemma_lookup_unique(p: PairsView, k: Seq<char>)
    requires
        unique_names(p),
    ensures
        lookup(p, k) is None <==> (forall|i: int| 0 <= i < p.len() ==> p[i].0 != k),
        forall|i: int| 0 <= i < p.len() && p[i].0 == k ==> lookup(p, k) == Some(p[i].1),
    decreases p.len(),
{
    if p.len() > 0 {
        let q = p.drop_last();
        assert(unique_names(q));
        lemma_lookup_unique(q, k);
        if p.last().0 != k {
            assert forall|i: int| 0 <= i < p.len() && p[i].0 == k implies lookup(p, k) == Some(p[i].1) by {
                assert(i < q.len());
                assert(q[i] == p[i]);
            }
            if lookup(p, k) is None {
                assert forall|i: int| 0 <= i < p.len() implies p[i].0 != k by {
                    if i < q.len() {
                        assert(q[i] == p[i]);
                    }
                }
            }
        }
    }
}

/// The persisted mapping from package name to last confirmed version.
pub struct VersionStore {
    pub entries: Vec<(String, String)>,
}

impl View for VersionStore {
    type V = Map<Seq<char>, Seq<char>>;

    open spec fn view(&self) -> Map<Seq<char>, Seq<char>> {
        map_of(pairs_view(self.entries@))
    }
}

impl VersionStore {
    pub open spec fn pairs(&self) -> PairsView {
        pairs_view(self.entries@)
    }

    /// Each name is held once.
    pub open spec fn wf(&self) -> bool {
        unique_names(self.pairs())
    }

    /// An empty store.
    pub fn new() -> (r: VersionStore)
        ensures
            r.wf(),
            r@ == Map::<Seq<char>, Seq<char>>::empty(),
    {
        let r = VersionStore { entries: Vec::new() };
        assert(r@ =~= Map::<Seq<char>, Seq<char>>::empty());
        r
    }

    /// A copy of the store.
    pub fn copy(&self) -> (r: VersionStore)
        ensures
            r.pairs() == self.pairs(),
    {
        let mut entries: Vec<(String, String)> = Vec::new();
        let mut i: usize = 0;
        while i < self.entries.len()
            invariant
                i <= self.entries@.len(),
                entries@.len() == i,
                forall|j: int| 0 <= j < i ==> pairs_view(entries@)[j] == self.pairs()[j],
            decreases self.entries@.len() - i,
        {
            let (a, b) = &self.entries[i];
            entries.push((a.clone(), b.clone()));
            i = i + 1;
        }
        let r = VersionStore { entries };
        assert(r.pairs() =~= self.pairs());
        r
    }

    /// Index of the pair that holds `name`, if any.
    fn position(&self, name: &str) -> (r: Option<usize>)
        requires
            self.wf(),
        ensures
            r is None ==> forall|i: int| 0 <= i < self.pairs().len() ==> self.pairs()[i].0 != name@,
            r matches Some(i) ==> i < self.pairs().len() && self.pairs()[i as int].0 == name@,
    {
        let mut i: usize = 0;
        while i < self.entries.len()
            invariant
                i <= self.entries@.len(),
                forall|j: int| 0 <= j < i ==> self.pairs()[j].0 != name@,
            decreases self.entries@.len() - i,
        {
            if text_eq(self.entries[i].0.as_str(), name) {
                return Some(i);
            }
            i = i + 1;
        }
        None
    }

    /// The version recorded for `name`.
    pub fn get(&self, name: &str) -> (r: Option<String>)
        requires
            self.wf(),
        ensures
            r is Some <==> self@.contains_key(name@),
            r matches Some(v) ==> v@ == self@[name@],
    {
        proof {
            lemma_lookup_unique(self.pairs(), name@);
        }
        match self.position(name) {
            Some(i) => Some(self.entries[i].1.clone()),
            None => None,
        }
    }

    /// Records `version` for `name`, replacing what was there.
    pub fn put(&mut self, name: &str, version: &str)
        requires
            old(self).wf(),
        ensures
            final(self).wf(),
            final(self)@ == old(self)@.insert(name@, version@),
    {
        let ghost before = self.pairs();
        let n = String::from_str(name);
        let v = String::from_str(version);
        proof {
            lemma_lookup_unique(before, name@);
        }
        match self.position(name) {
            Some(i) => {
                self.entries.set(i, (n, v));
                let ghost after = self.pairs();
                assert(after =~= before.update(i as int, (name@, version@)));
                assert(unique_names(after));
                assert forall|k: Seq<char>| true implies lookup(after, k) == if k == name@ {
                    Some(version@)
                } else {
                    lookup(before, k)
                } by {
                    lemma_lookup_unique(after, k);
                    lemma_lookup_unique(before, k);
                    if k != name@ {
                        assert forall|j: int| 0 <= j < after.len() implies (after[j].0 == k) == (before[j].0 == k) by {
                            if j == i as int {
                            }
                        }
                        if lookup(before, k) is Some {
                            let j = choose|j: int| 0 <= j < before.len() && before[j].0 == k;
                            assert(after[j] == before[j]);
                        }
                    } else {
                        assert(after[i as int].0 == k);
                    }
                }
            },
            None => {
                self.entries.push((n, v));
                let ghost after = self.pairs();
                assert(after =~= before.push((name@, version@)));
                assert(after.drop_last() =~= before);
            },
        }
        assert(self@ =~= old(self)@.insert(name@, version@));
    }
}

/// Whether two strings hold the same characters.
pub fn text_eq(a: &str, b: &str) -> (r: bool)
    ensures
        r == (a@ == b@),
{
    let n = a.unicode_len();
    if n != b.unicode_len() {
        return false;
    }
    let mut i: usize = 0;
    while i < n
        invariant
            n == a@.len(),
            n == b@.len(),
            i <= n,
            forall|j: int| 0 <= j < i ==> a@[j] == b@[j],
        decreases n - i,
    {
        if a.get_char(i) != b.get_char(i) {
            return false;
        }
        i = i + 1;
    }
    assert(a@ =~= b@);
    true
}


/// Index of the first line break in `t`, or its length when there is none.
pub open spec fn index_of_newline(t: Seq<char>) -> int
    decreases t.len(),
{
    if t.len() == 0 {
        0
    } else if t[0] == '\n' {
        0
    } else {
        1 + index_of_newline(t.drop_first())
    }
}

/// Whether `l` holds the separator ": " starting at `i`.
pub open spec fn sep_at(l: Seq<char>, i: int) -> bool {
    0 <= i && i + 1 < l.len() && l[i] == ':' && l[i + 1] == ' '
}

/// Index of the first ": " in `l`, or its length when there is none.
pub open spec fn index_of_sep(l: Seq<char>) -> int
    decreases l.len(),
{
    if l.len() < 2 {
        l.len() as int
    } else if sep_at(l, 0) {
        0
    } else {
        1 + index_of_sep(l.drop_first())
    }
}

/// A line `name: version` read as its pair, split at the first ": ".
pub open spec fn split_line(l: Seq<char>) -> Option<(Seq<char>, Seq<char>)> {
    let i = index_of_sep(l);
    if i + 2 <= l.len() {
        Some((l.subrange(0, i), l.subrange(i + 2, l.len() as int)))
    } else {
        None
    }
}

/// How a character is written in the store file: a backslash, a line
/// break and a colon are escaped, so that neither a name nor a version can
/// hold a line break or the separator.
pub open spec fn esc_char(c: char) -> Seq<char> {
    if c == '\\' {
        seq!['\\', '\\']
    } else if c == '\n' {
        seq!['\\', 'n']
    } else if c == ':' {
        seq!['\\', 'c']
    } else {
        seq![c]
    }
}

/// A text as the store file writes it.
pub open spec fn escape_seq(s: Seq<char>) -> Seq<char>
    decreases s.len(),
{
    if s.len() == 0 {
        Seq::empty()
    } else {
        esc_char(s[0]) + escape_seq(s.drop_first())
    }
}

/// The character that an escape code stands for.
pub open spec fn unesc_code(c: char) -> Option<char> {
    if c == '\\' {
        Some('\\')
    } else if c == 'n' {
        Some('\n')
    } else if c == 'c' {
        Some(':')
    } else {
        None
    }
}

/// A text read back from the store file; `None` on a bad escape.
pub open spec fn unescape(t: Seq<char>) -> Option<Seq<char>>
    decreases t.len(),
{
    if t.len() == 0 {
        Some(Seq::empty())
    } else if t[0] == '\\' {
        if t.len() < 2 {
            None
        } else {
            match unesc_code(t[1]) {
                None => None,
                Some(c) => match unescape(t.subrange(2, t.len() as int)) {
                    None => None,
                    Some(r) => Some(seq![c] + r),
                },
            }
        }
    } else {
        match unescape(t.drop_first()) {
            None => None,
            Some(r) => Some(seq![t[0]] + r),
        }
    }
}

/// One line read as its pair: split at the first ": ", both parts
/// unescaped.
pub open spec fn read_line(l: Seq<char>) -> Option<(Seq<char>, Seq<char>)> {
    match split_line(l) {
        None => None,
        Some((a, b)) => match (unescape(a), unescape(b)) {
            (Some(x), Some(y)) => Some((x, y)),
            _ => None,
        },
    }
}

/// The pairs that a store file holds, in file order; `None` when a line
/// has no separator or a bad escape.
pub open spec fn parse_text(t: Seq<char>) -> Option<PairsView>
    decreases t.len(),
{
    if t.len() == 0 {
        Some(Seq::empty())
    } else {
        let k = index_of_newline(t);
        let rest = if k < t.len() {
            t.subrange(k + 1, t.len() as int)
        } else {
            Seq::empty()
        };
        if 0 <= k <= t.len() {
            match read_line(t.subrange(0, k)) {
                None => None,
                Some(pair) => match parse_text(rest) {
                    None => None,
                    Some(ps) => Some(seq![pair] + ps),
                },
            }
        } else {
            None
        }
    }
}

/// One line of the store file.
pub open spec fn line_of(p: (Seq<char>, Seq<char>)) -> Seq<char> {
    escape_seq(p.0) + seq![':', ' '] + escape_seq(p.1) + seq!['\n']
}

/// The store file for a sequence of pairs, one line each, in order.
pub open spec fn store_text(p: PairsView) -> Seq<char>
    decreases p.len(),
{
    if p.len() == 0 {
        Seq::empty()
    } else {
        line_of(p[0]) + store_text(p.drop_first())
    }
}

/// An escaped text holds no line break and no colon, and reads back as
/// the text.
pub proof fn lemma_escape(s: Seq<char>)
    ensures
        forall|j: int| 0 <= j < escape_seq(s).len() ==> escape_seq(s)[j] != '\n' && escape_seq(s)[j] != ':',
        unescape(escape_seq(s)) == Some(s),
    decreases s.len(),
{
    if s.len() > 0 {
        let t = s.drop_first();
        lemma_escape(t);
        let e = escape_seq(s);
        let h = esc_char(s[0]);
        assert(e == h + escape_seq(t));
        assert forall|j: int| 0 <= j < e.len() implies e[j] != '\n' && e[j] != ':' by {
            if j >= h.len() {
                assert(e[j] == escape_seq(t)[j - h.len()]);
            }
        }
        if h.len() == 2 {
            assert(e.subrange(2, e.len() as int) =~= escape_seq(t));
        } else {
            assert(e.drop_first() =~= escape_seq(t));
        }
        assert(seq![s[0]] + t =~= s);
    }
}

pub proof fn lemma_index_of_newline(t: Seq<char>, m: int)
    requires
        0 <= m <= t.len(),
        forall|j: int| 0 <= j < m ==> t[j] != '\n',
        m == t.len() || t[m] == '\n',
    ensures
        index_of_newline(t) == m,
    decreases t.len(),
{
    if t.len() > 0 && m > 0 {
        let u = t.drop_first();
        assert forall|j: int| 0 <= j < m - 1 implies u[j] != '\n' by {
            assert(u[j] == t[j + 1]);
        }
        if m < t.len() {
            assert(u[m - 1] == t[m]);
        }
        lemma_index_of_newline(u, m - 1);
    }
}

pub proof fn lemma_index_of_sep(l: Seq<char>, m: int)
    requires
        0 <= m <= l.len(),
        forall|j: int| 0 <= j < m ==> !sep_at(l, j),
        m == l.len() || sep_at(l, m),
    ensures
        index_of_sep(l) == m,
    decreases l.len(),
{
    if l.len() >= 2 && m > 0 {
        assert(!sep_at(l, 0));
        let u = l.drop_first();
        assert forall|j: int| 0 <= j < m - 1 implies !sep_at(u, j) by {
            assert(!sep_at(l, j + 1));
        }
        if m < l.len() {
            assert(sep_at(l, m));
            assert(sep_at(u, m - 1));
        }
        lemma_index_of_sep(u, m - 1);
    } else if l.len() < 2 && m < l.len() {
        assert(sep_at(l, m));
    }
}

/// Reading back what was written yields the same pairs in the same order.
pub proof fn lemma_parse_store_text(p: PairsView)
    ensures
        parse_text(store_text(p)) == Some(p),
    decreases p.len(),
{
    if p.len() > 0 {
        let x = p[0];
        let q = p.drop_first();
        lemma_parse_store_text(q);
        let en = escape_seq(x.0);
        let ev = escape_seq(x.1);
        lemma_escape(x.0);
        lemma_escape(x.1);
        let body = en + seq![':', ' '] + ev;
        let r = store_text(q);
        let t = store_text(p);
        assert(t =~= body + seq!['\n'] + r);
        let k = body.len() as int;
        assert forall|j: int| 0 <= j < k implies t[j] != '\n' by {
            assert(t[j] == body[j]);
            if j < en.len() {
                assert(en[j] == body[j]);
            } else if j >= en.len() + 2 {
                assert(ev[j - en.len() - 2] == body[j]);
            }
        }
        lemma_index_of_newline(t, k);
        assert(t.subrange(0, k) =~= body);
        assert(t.subrange(k + 1, t.len() as int) =~= r);
        let n = en.len() as int;
        assert forall|j: int| 0 <= j < n implies !sep_at(body, j) by {
            assert(body[j] == en[j]);
        }
        assert(sep_at(body, n));
        lemma_index_of_sep(body, n);
        assert(body.subrange(0, n) =~= en);
        assert(body.subrange(n + 2, body.len() as int) =~= ev);
        assert(seq![x] + q =~= p);
    }
}

/// Adding a pair at the end records it over whatever came before.
pub proof fn lemma_map_of_push(p: PairsView, x: (Seq<char>, Seq<char>))
    ensures
        map_of(p.push(x)) == map_of(p).insert(x.0, x.1),
{
    assert(p.push(x).drop_last() =~= p);
    assert(map_of(p.push(x)) =~= map_of(p).insert(x.0, x.1));
}

/// Why a store file could not be read.
#[derive(Debug, Clone, Copy, PartialEq, Eq)]
pub enum StoreError {
    /// A line holds no ": " separator, or a bad escape.
    Corrupt,
}

impl VersionStore {
    /// The store file: one `name: version` line per pair, in store order.
    pub fn save(&self) -> (r: String)
        ensures
            r@ == store_text(self.pairs()),
    {
        let ghost p = self.pairs();
        let mut out = String::new();
        let mut i: usize = 0;
        proof {
            reveal_strlit(": ");
            reveal_strlit("\n");
            assert(p.subrange(0, p.len() as int) =~= p);
        }
        while i < self.entries.len()
            invariant
                p == self.pairs(),
                i <= p.len(),
                out@ + store_text(p.subrange(i as int, p.len() as int)) == store_text(p),
            decreases p.len() - i,
        {
            let ghost before = out@;
            push_escaped(&mut out, self.entries[i].0.as_str());
            out.append(": ");
            push_escaped(&mut out, self.entries[i].1.as_str());
            out.append("\n");
            proof {
                reveal_strlit(": ");
                reveal_strlit("\n");
                assert(p[i as int] == (self.entries@[i as int].0@, self.entries@[i as int].1@));
                let s = p.subrange(i as int, p.len() as int);
                assert(s.drop_first() =~= p.subrange(i + 1, p.len() as int));
                assert(s[0] == p[i as int]);
                assert(out@ =~= before + line_of(p[i as int]));
                assert(out@ + store_text(s.drop_first()) =~= before + store_text(s));
            }
            i = i + 1;
        }
        proof {
            assert(p.subrange(i as int, p.len() as int) =~= Seq::<(Seq<char>, Seq<char>)>::empty());
            assert(out@ =~= out@ + Seq::<char>::empty());
        }
        out
    }

    /// Reads a store file. Every line must hold a `name: version` pair;
    /// a name that occurs twice keeps its last version.
    pub fn load(text: &str) -> (r: Result<VersionStore, StoreError>)
        ensures
            r is Err <==> parse_text(text@) is None,
            r matches Ok(s) ==> (s.wf() && (parse_text(text@) matches Some(p) && s@ == map_of(p))),
    {
        let n = text.unicode_len();
        let ghost t = text@;
        let mut store = VersionStore::new();
        let ghost mut done: PairsView = Seq::empty();
        let mut pos: usize = 0;
        proof {
            assert(t.subrange(0, n as int) =~= t);
            match parse_text(t) {
                Some(ps) => {
                    assert(done + ps =~= ps);
                },
                None => {},
            }
        }
        while pos < n
            invariant
                n == t.len(),
                t == text@,
                pos <= n,
                store.wf(),
                store@ == map_of(done),
                parse_text(t) == match parse_text(t.subrange(pos as int, n as int)) {
                    Some(ps) => Some(done + ps),
                    None => None,
                },
            decreases n - pos,
        {
            let ghost u = t.subrange(pos as int, n as int);
            let mut k: usize = pos;
            while k < n && text.get_char(k) != '\n'
                invariant
                    pos <= k <= n,
                    n == t.len(),
                    t == text@,
                    forall|j: int| pos <= j < k ==> t[j] != '\n',
                decreases n - k,
            {
                k = k + 1;
            }
            proof {
                lemma_index_of_newline(u, k - pos);
            }
            let line = text.substring_char(pos, k);
            let m = line.unicode_len();
            let mut j: usize = 0;
            while j < m && j + 1 < m && !(line.get_char(j) == ':' && line.get_char(j + 1) == ' ')
                invariant
                    j <= m,
                    m == line@.len(),
                    forall|q: int| 0 <= q < j ==> !sep_at(line@, q),
                decreases m - j,
            {
                j = j + 1;
            }
            if j >= m || j + 1 >= m {
                proof {
                    lemma_index_of_sep(line@, m as int);
                    assert(line@ =~= u.subrange(0, k - pos));
                }
                return Err(StoreError::Corrupt);
            }
            proof {
                lemma_index_of_sep(line@, j as int);
                assert(line@ =~= u.subrange(0, k - pos));
            }
            let raw_name = line.substring_char(0, j);
            let raw_version = line.substring_char(j + 2, m);
            let (name, version) = match (unescape_text(raw_name), unescape_text(raw_version)) {
                (Some(a), Some(b)) => (a, b),
                _ => {
                    proof {
                        assert(line@ =~= u.subrange(0, k - pos));
                    }
                    return Err(StoreError::Corrupt);
                },
            };
            let ghost pair = (name@, version@);
            store.put(name.as_str(), version.as_str());
            let next: usize = if k < n { k + 1 } else { n };
            proof {
                lemma_map_of_push(done, pair);
                let rest = t.subrange(next as int, n as int);
                if k < n {
                    assert(u.subrange(k - pos + 1, u.len() as int) =~= rest);
                } else {
                    assert(rest =~= Seq::<char>::empty());
                }
                match parse_text(rest) {
                    Some(ps) => {
                        assert(done.push(pair) + ps =~= done + (seq![pair] + ps));
                    },
                    None => {},
                }
                done = done.push(pair);
            }
            pos = next;
        }
        proof {
            assert(t.subrange(pos as int, n as int) =~= Seq::<char>::empty());
            assert(done + Seq::<(Seq<char>, Seq<char>)>::empty() =~= done);
        }
        Ok(store)
    }
}

/// Saving a store and loading the file back gives the same mapping.
pub proof fn lemma_load_save_round_trip(s: VersionStore)
    requires
        s.wf(),
    ensures
        (parse_text(store_text(s.pairs())) matches Some(p) && map_of(p) == s@),
{
    lemma_parse_store_text(s.pairs());
}

/// Appends a text as the store file writes it.
fn push_escaped(out: &mut String, s: &str)
    ensures
        final(out)@ == old(out)@ + escape_seq(s@),
{
    let n = s.unicode_len();
    let ghost start = out@;
    let mut i: usize = 0;
    proof {
        assert(s@.skip(0) =~= s@);
        assert(out@ + escape_seq(s@) =~= start + escape_seq(s@));
    }
    while i < n
        invariant
            n == s@.len(),
            i <= n,
            out@ + escape_seq(s@.skip(i as int)) == start + escape_seq(s@),
        decreases n - i,
    {
        let c = s.get_char(i);
        let ghost before = out@;
        proof {
            reveal_strlit("\\\\");
            reveal_strlit("\\n");
            reveal_strlit("\\c");
            assert(s@.skip(i as int)[0] == c);
            assert(s@.skip(i as int).drop_first() =~= s@.skip(i + 1));
        }
        if c == '\\' {
            out.append("\\\\");
        } else if c == '\n' {
            out.append("\\n");
        } else if c == ':' {
            out.append("\\c");
        } else {
            out.append(s.substring_char(i, i + 1));
        }
        proof {
            assert(out@ =~= before + esc_char(c));
            assert(before + escape_seq(s@.skip(i as int)) =~= out@ + escape_seq(s@.skip(i + 1)));
        }
        i = i + 1;
    }
    proof {
        assert(s@.skip(i as int) =~= Seq::<char>::empty());
        assert(out@ + Seq::<char>::empty() =~= out@);
    }
}

/// Reads an escaped text back; `None` on a bad escape.
fn unescape_text(s: &str) -> (r: Option<String>)
    ensures
        match r {
            Some(x) => unescape(s@) == Some(x@),
            None => unescape(s@) is None,
        },
{
    let n = s.unicode_len();
    let mut out = String::new();
    let mut i: usize = 0;
    proof {
        assert(s@.skip(0) =~= s@);
        match unescape(s@) {
            Some(x) => {
                assert(out@ + x =~= x);
            },
            None => {},
        }
    }
    while i < n
        invariant
            n == s@.len(),
            i <= n,
            unescape(s@) == match unescape(s@.skip(i as int)) {
                Some(x) => Some(out@ + x),
                None => None,
            },
        decreases n - i,
    {
        let ghost u = s@.skip(i as int);
        let ghost before = out@;
        let c = s.get_char(i);
        proof {
            reveal_strlit("\\");
            reveal_strlit("\n");
            reveal_strlit(":");
            assert(u[0] == c);
        }
        if c == '\\' {
            if i + 1 >= n {
                return None;
            }
            let d = s.get_char(i + 1);
            proof {
                assert(u[1] == d);
                assert(u.subrange(2, u.len() as int) =~= s@.skip(i + 2));
            }
            if d == '\\' {
                out.append("\\");
            } else if d == 'n' {
                out.append("\n");
            } else if d == 'c' {
                out.append(":");
            } else {
                return None;
            }
            proof {
                assert(seq![unesc_code(d)->Some_0] =~= out@.subrange(before.len() as int, out@.len() as int));
                match unescape(s@.skip(i + 2)) {
                    Some(x) => {
                        assert(before + (seq![unesc_code(d)->Some_0] + x) =~= out@ + x);
                    },
                    None => {},
                }
            }
            i = i + 2;
        } else {
            out.append(s.substring_char(i, i + 1));
            proof {
                assert(u.drop_first() =~= s@.skip(i + 1));
                match unescape(s@.skip(i + 1)) {
                    Some(x) => {
                        assert(before + (seq![c] + x) =~= out@ + x);
                    },
                    None => {},
                }
            }
            i = i + 1;
        }
    }
    proof {
        assert(s@.skip(i as int) =~= Seq::<char>::empty());
        assert(out@ + Seq::<char>::empty() =~= out@);
    }
    Some(out)
}

} // verus!
