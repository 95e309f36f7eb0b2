use vstd::prelude::*;
use vstd::string::StrSliceExecFns;
use vstd::string::StringExecFns;
use crate::strutil::{find_char, find_char_in, lemma_find_char_unique};

verus! {

/// One record of the progress store: a package name and the filesystem path
/// of its last successfully produced artifact.
#[derive(Debug)]
pub struct ProgressEntry {
    pub name: String,
    pub path: String,
}

/// The contents of a sequence of entries, as pairs of character sequences.
pub open spec fn entries_view(es: Seq<ProgressEntry>) -> Seq<(Seq<char>, Seq<char>)> {
    es.map_values(|e: ProgressEntry| (e.name@, e.path@))
}

/// Whether some entry of `m` carries the name `n`.
pub open spec fn has_name(m: Seq<(Seq<char>, Seq<char>)>, n: Seq<char>) -> bool {
    exists|k: int| 0 <= k < m.len() && (#[trigger] m[k]).0 == n
}

/// Whether the names of `m` are pairwise distinct.
pub open spec fn names_distinct(m: Seq<(Seq<char>, Seq<char>)>) -> bool {
    forall|i: int, j: int| 0 <= i < j < m.len() ==> m[i].0 != m[j].0
}

/// The progress store: the mapping from package name to the artifact path it
/// last produced, kept as a list of entries with pairwise distinct names.
#[derive(Debug)]
pub struct Progress {
    pub entries: Vec<ProgressEntry>,
}

impl View for Progress {
    type V = Seq<(Seq<char>, Seq<char>)>;

    open spec fn view(&self) -> Seq<(Seq<char>, Seq<char>)> {
        entries_view(self.entries@)
    }
}

impl Progress {
    /// Names are pairwise distinct, so the entry list is a mapping.
    pub open spec fn wf(&self) -> bool {
        names_distinct(self@)
    }

    /// An empty store: nothing has been built yet.
    pub fn new() -> (p: Progress)
        ensures
            p@ == Seq::<(Seq<char>, Seq<char>)>::empty(),
            p.wf(),
    {
        let p = Progress { entries: Vec::new() };
        proof {
            assert(p@ =~= Seq::<(Seq<char>, Seq<char>)>::empty());
        }
        p
    }

    /// The artifact path recorded for `name`, if any.
    pub fn lookup(&self, name: &String) -> (r: Option<String>)
        ensures
            match r {
                Some(path) => exists|k: int|
                    0 <= k < self@.len() && (#[trigger] self@[k]).0 == name@ && self@[k].1
                        == path@,
                None => !has_name(self@, name@),
            },
    {
        let mut k: usize = 0;
        while k < self.entries.len()
            invariant
                k <= self@.len(),
                self@.len() == self.entries@.len(),
                forall|t: int| 0 <= t < k ==> (#[trigger] self@[t]).0 != name@,
            decreases self@.len() - k,
        {
            if self.entries[k].name == *name {
                let p = self.entries[k].path.clone();
                proof {
                    assert((#[trigger] self@[k as int]).0 == name@ && self@[k as int].1 == p@);
                }
                return Some(p);
            }
            proof {
                assert((#[trigger] self@[k as int]).0 == self.entries@[k as int].name@);
            }
            k += 1;
        }
        None
    }

    /// Record that `name` produced the artifact at `path`, replacing any
    /// earlier record for the same name.
    pub fn record(&mut self, name: String, path: String)
        requires
            old(self).wf(),
        ensures
            final(self).wf(),
            has_name(old(self)@, name@) ==> exists|k: int|
                0 <= k < old(self)@.len() && (#[trigger] old(self)@[k]).0 == name@
                    && final(self)@ == old(self)@.update(k, (name@, path@)),
            !has_name(old(self)@, name@) ==> final(self)@ == old(self)@.push((name@, path@)),
    {
        let ghost name_v = name@;
        let ghost path_v = path@;
        let n = self.entries.len();
        let mut k: usize = 0;
        while k < n
            invariant
                n == self.entries@.len(),
                k <= n,
                self@ == old(self)@,
                self.entries@ == old(self).entries@,
                old(self).wf(),
                forall|t: int| 0 <= t < k ==> (#[trigger] self@[t]).0 != name_v,
                name@ == name_v,
                path@ == path_v,
            decreases n - k,
        {
            if self.entries[k].name == name {
                let ghost before = self@;
                proof {
                    assert((#[trigger] before[k as int]).0 == name_v);
                }
                self.entries[k] = ProgressEntry { name, path };
                proof {
                    assert(self@ =~= before.update(k as int, (name_v, path_v)));
                    assert forall|i: int, j: int|
                        0 <= i < j < self@.len() implies self@[i].0 != self@[j].0 by {
                        if i != k as int && j != k as int {
                            assert(before[i].0 != before[j].0);
                        } else if i == k as int {
                            assert(before[j].0 != name_v) by {
                                if before[j].0 == name_v {
                                    assert(before[k as int].0 == name_v);
                                }
                            }
                        } else {
                            assert(before[i].0 != name_v);
                        }
                    }
                    assert(exists|t: int|
                        0 <= t < before.len() && (#[trigger] before[t]).0 == name_v && self@
                            == before.update(t, (name_v, path_v)));
                }
                return ;
            }
            proof {
                assert((#[trigger] self@[k as int]).0 == self.entries@[k as int].name@);
            }
            k += 1;
        }
        let ghost before = self@;
        self.entries.push(ProgressEntry { name, path });
        proof {
            assert(self@ =~= before.push((name_v, path_v)));
            assert(!has_name(before, name_v)) by {
                if has_name(before, name_v) {
                    let t = choose|t: int| 0 <= t < before.len() && (#[trigger] before[t]).0
                        == name_v;
                    assert(before[t].0 != name_v);
                }
            }
            assert forall|i: int, j: int|
                0 <= i < j < self@.len() implies self@[i].0 != self@[j].0 by {
                if j < self@.len() - 1 {
                    assert(before[i].0 != before[j].0);
                } else {
                    assert(self@[i] == before[i]);
                    assert(before[i].0 != name_v) by {
                        if before[i].0 == name_v {
                            assert(has_name(before, name_v));
                        }
                    }
                }
            }
        }
    }
}

impl Progress {
    /// Build a store from loaded entries, a later entry for a name replacing
    /// an earlier one. On entries with pairwise distinct names, as every
    /// rendered store has, nothing is collapsed.
    pub fn from_entries(entries: Vec<ProgressEntry>) -> (p: Progress)
        ensures
            p.wf(),
            names_distinct(entries_view(entries@)) ==> p@ == entries_view(entries@),
    {
        let ghost ev = entries_view(entries@);
        let n = entries.len();
        let mut rest = entries;
        let mut p = Progress::new();
        let mut idx: usize = 0;
        proof {
            assert(ev.skip(0) =~= ev);
            assert(p@ =~= ev.take(0));
        }
        while idx < n
            invariant
                idx + rest@.len() == n,
                entries_view(rest@) == ev.skip(idx as int),
                ev.len() == n,
                p.wf(),
                names_distinct(ev) ==> p@ == ev.take(idx as int),
            decreases n - idx,
        {
            let ghost rest_before = entries_view(rest@);
            let ghost p_before = p@;
            let e = rest.remove(0);
            let ghost nv = e.name@;
            let ghost pv = e.path@;
            proof {
                assert(entries_view(rest@) =~= rest_before.skip(1));
                assert(rest_before.skip(1) =~= ev.skip(idx + 1));
                assert(rest_before[0] == (nv, pv));
                assert(ev[idx as int] == (nv, pv));
            }
            p.record(e.name, e.path);
            proof {
                if names_distinct(ev) {
                    assert(!has_name(p_before, nv)) by {
                        if has_name(p_before, nv) {
                            let t = choose|t: int|
                                0 <= t < p_before.len() && (#[trigger] p_before[t]).0 == nv;
                            assert(ev.take(idx as int)[t] == ev[t]);
                            assert(ev[t].0 == ev[idx as int].0);
                        }
                    }
                    assert(p@ == p_before.push((nv, pv)));
                    assert(ev.take(idx + 1) =~= ev.take(idx as int).push(ev[idx as int]));
                }
            }
            idx += 1;
        }
        proof {
            assert(ev.take(n as int) =~= ev);
        }
        p
    }
}

/// One line of the on-disk format: the name, one space, the path, a newline.
pub open spec fn line_spec(e: (Seq<char>, Seq<char>)) -> Seq<char> {
    e.0 + seq![' '] + e.1 + seq!['\n']
}

/// The on-disk text of a store: one line per entry, in order.
pub open spec fn render_spec(m: Seq<(Seq<char>, Seq<char>)>) -> Seq<char>
    decreases m.len(),
{
    if m.len() == 0 {
        Seq::empty()
    } else {
        line_spec(m[0]) + render_spec(m.skip(1))
    }
}

proof fn lemma_render_snoc(m: Seq<(Seq<char>, Seq<char>)>, e: (Seq<char>, Seq<char>))
    ensures
        render_spec(m.push(e)) == render_spec(m) + line_spec(e),
    decreases m.len(),
{
    if m.len() == 0 {
        assert(m.push(e)[0] == e);
        assert(m.push(e).skip(1) =~= m);
        assert(render_spec(m) == Seq::<char>::empty());
        assert(render_spec(m.push(e)) == line_spec(e) + render_spec(m));
        assert(line_spec(e) + render_spec(m) =~= render_spec(m) + line_spec(e));
    } else {
        assert(m.push(e)[0] == m[0]);
        assert(m.push(e).skip(1) =~= m.skip(1).push(e));
        lemma_render_snoc(m.skip(1), e);
        assert(render_spec(m.push(e)) =~= render_spec(m) + line_spec(e));
    }
}

/// What one line of the on-disk text means: an entry when the line holds
/// exactly one space, which separates the name from the path; nothing
/// otherwise.
pub open spec fn parse_line_spec(line: Seq<char>) -> Seq<(Seq<char>, Seq<char>)> {
    let i = find_char(line, ' ');
    if 0 <= i < line.len() && find_char(line.skip(i + 1), ' ') == line.skip(i + 1).len() {
        seq![(line.take(i), line.skip(i + 1))]
    } else {
        Seq::empty()
    }
}

/// What the on-disk text means: the entries of its newline-separated lines,
/// in order, lines without exactly one space skipped.
pub open spec fn parse_spec(s: Seq<char>) -> Seq<(Seq<char>, Seq<char>)>
    decreases s.len(),
{
    if s.len() == 0 {
        Seq::empty()
    } else {
        let i = find_char(s, '\n');
        if 0 <= i < s.len() {
            parse_line_spec(s.take(i)) + parse_spec(s.skip(i + 1))
        } else {
            parse_line_spec(s)
        }
    }
}

impl Progress {
    /// The text to persist for this store.
    pub fn render(&self) -> (r: String)
        ensures
            r@ == render_spec(self@),
    {
        let mut r = String::new();
        let mut i: usize = 0;
        let n = self.entries.len();
        proof {
            assert(self@.take(0) =~= Seq::<(Seq<char>, Seq<char>)>::empty());
        }
        while i < n
            invariant
                n == self.entries@.len(),
                self@.len() == n,
                i <= n,
                r@ == render_spec(self@.take(i as int)),
            decreases n - i,
        {
            let ghost r0 = r@;
            r.append(self.entries[i].name.as_str());
            r.append(" ");
            r.append(self.entries[i].path.as_str());
            r.append("\n");
            proof {
                reveal_strlit(" ");
                reveal_strlit("\n");
                assert(" "@ =~= seq![' ']);
                assert("\n"@ =~= seq!['\n']);
                let e = self@[i as int];
                assert(e == (self.entries@[i as int].name@, self.entries@[i as int].path@));
                assert(r@ =~= r0 + line_spec(e));
                lemma_render_snoc(self@.take(i as int), e);
                assert(self@.take(i + 1) =~= self@.take(i as int).push(e));
            }
            i += 1;
        }
        proof {
            assert(self@.take(n as int) =~= self@);
        }
        r
    }
}

/// Parse persisted progress text into its entries. A missing file reads as
/// empty text, which parses to no entries.
pub fn parse_progress(s: &str) -> (r: Vec<ProgressEntry>)
    ensures
        entries_view(r@) == parse_spec(s@),
{
    let n = s.unicode_len();
    let mut out: Vec<ProgressEntry> = Vec::new();
    let mut pos: usize = 0;
    proof {
        assert(s@.skip(0) =~= s@);
        assert(entries_view(out@) =~= Seq::<(Seq<char>, Seq<char>)>::empty());
    }
    while pos < n
        invariant
            n == s@.len(),
            pos <= n,
            entries_view(out@) + parse_spec(s@.skip(pos as int)) == parse_spec(s@),
        decreases n - pos,
    {
        let ghost out0 = entries_view(out@);
        let ghost t = s@.skip(pos as int);
        let nl = find_char_in(s, pos, '\n');
        let line = s.substring_char(pos, nl);
        proof {
            assert(line@ =~= t.take(nl - pos));
            assert forall|q: int| 0 <= q < nl - pos implies t[q] != '\n' by {
                assert(t[q] == s@[pos + q]);
            }
            if nl < n {
                assert(t[nl - pos] == s@[nl as int]);
            }
            lemma_find_char_unique(t, '\n', nl - pos);
        }
        let llen = line.unicode_len();
        let sp = find_char_in(line, 0, ' ');
        if sp < llen {
            let sp2 = find_char_in(line, sp + 1, ' ');
            proof {
                lemma_find_char_unique(line@, ' ', sp as int);
                assert forall|q: int| 0 <= q < sp2 - (sp + 1) implies (#[trigger] line@.skip(
                    sp + 1,
                )[q]) != ' ' by {
                    assert(line@.skip(sp + 1)[q] == line@[sp + 1 + q]);
                }
                if (sp2 as int) < line@.len() {
                    assert(line@.skip(sp + 1)[sp2 - (sp + 1)] == line@[sp2 as int]);
                }
                lemma_find_char_unique(line@.skip(sp + 1), ' ', sp2 - (sp + 1));
            }
            if sp2 == llen {
                let name = line.substring_char(0, sp).to_owned();
                let path = line.substring_char(sp + 1, llen).to_owned();
                proof {
                    assert(name@ =~= line@.take(sp as int));
                    assert(path@ =~= line@.skip(sp + 1));
                    assert(parse_line_spec(line@) =~= seq![(name@, path@)]);
                }
                let ghost name_v = name@;
                let ghost path_v = path@;
                out.push(ProgressEntry { name, path });
                proof {
                    assert(entries_view(out@) =~= out0 + seq![(name_v, path_v)]);
                }
            } else {
                proof {
                    assert(parse_line_spec(line@) =~= Seq::<(Seq<char>, Seq<char>)>::empty());
                    assert(entries_view(out@) =~= out0 + parse_line_spec(line@));
                }
            }
        } else {
            proof {
                lemma_find_char_unique(line@, ' ', sp as int);
                assert(parse_line_spec(line@) =~= Seq::<(Seq<char>, Seq<char>)>::empty());
                assert(entries_view(out@) =~= out0 + parse_line_spec(line@));
            }
        }
        let newpos = if nl < n {
            nl + 1
        } else {
            n
        };
        proof {
            if nl < n {
                assert(t.skip(nl - pos + 1) =~= s@.skip(newpos as int));
                assert(parse_spec(t) == parse_line_spec(t.take(nl - pos)) + parse_spec(
                    t.skip(nl - pos + 1),
                ));
            } else {
                assert(t.take(nl - pos) =~= t);
                assert(s@.skip(newpos as int).len() == 0);
                assert(s@.skip(newpos as int) =~= Seq::<char>::empty());
                assert(parse_spec(s@.skip(newpos as int)) =~= Seq::<(Seq<char>, Seq<char>)>::empty());
                assert(parse_spec(t) == parse_line_spec(t));
            }
            assert(line@ == t.take(nl - pos));
            assert(entries_view(out@) + parse_spec(s@.skip(newpos as int)) =~= out0
                + parse_line_spec(line@) + parse_spec(s@.skip(newpos as int)));
        }
        pos = newpos;
    }
    proof {
        assert(s@.skip(n as int).len() == 0);
        assert(parse_spec(s@.skip(n as int)) =~= Seq::<(Seq<char>, Seq<char>)>::empty());
        assert(entries_view(out@) + parse_spec(s@.skip(n as int)) =~= entries_view(out@));
    }
    out
}

/// Text fit for the on-disk format: neither the name nor the path holds a
/// space or a newline.
pub open spec fn entry_text_ok(e: (Seq<char>, Seq<char>)) -> bool {
    &&& !e.0.contains(' ')
    &&& !e.0.contains('\n')
    &&& !e.1.contains(' ')
    &&& !e.1.contains('\n')
}

/// Saving then loading round-trips: rendering a store and parsing the text
/// back yields the same entries, for every store whose names and paths are
/// free of spaces and newlines.
pub proof fn lemma_progress_round_trip(m: Seq<(Seq<char>, Seq<char>)>)
    requires
        forall|k: int| 0 <= k < m.len() ==> entry_text_ok(#[trigger] m[k]),
    ensures
        parse_spec(render_spec(m)) == m,
    decreases m.len(),
{
    if m.len() == 0 {
        assert(parse_spec(render_spec(m)) =~= m);
    } else {
        let e = m[0];
        let s = render_spec(m);
        let rest = render_spec(m.skip(1));
        let i = e.0.len() + 1 + e.1.len();
        assert(s == line_spec(e) + rest);
        assert(s.len() == i + 1 + rest.len());
        assert forall|q: int| 0 <= q < i implies s[q] != '\n' by {
            assert(s[q] == line_spec(e)[q]);
            if q < e.0.len() {
                assert(line_spec(e)[q] == e.0[q]);
                if e.0[q] == '\n' {
                    assert(e.0.contains('\n'));
                }
            } else if q == e.0.len() {
                assert(line_spec(e)[q] == ' ');
            } else {
                assert(line_spec(e)[q] == e.1[q - e.0.len() - 1]);
                if e.1[q - e.0.len() - 1] == '\n' {
                    assert(e.1.contains('\n'));
                }
            }
        }
        assert(s[i as int] == line_spec(e)[i as int]);
        assert(line_spec(e)[i as int] == '\n');
        lemma_find_char_unique(s, '\n', i as int);
        let l = s.take(i as int);
        assert(l =~= e.0 + seq![' '] + e.1);
        assert(s.skip(i + 1 as int) =~= rest);
        assert(parse_spec(s) == parse_line_spec(l) + parse_spec(rest));
        assert forall|q: int| 0 <= q < e.0.len() implies l[q] != ' ' by {
            assert(l[q] == e.0[q]);
            if e.0[q] == ' ' {
                assert(e.0.contains(' '));
            }
        }
        assert(l[e.0.len() as int] == ' ');
        lemma_find_char_unique(l, ' ', e.0.len() as int);
        assert(l.skip(e.0.len() + 1 as int) =~= e.1);
        assert forall|q: int| 0 <= q < e.1.len() implies e.1[q] != ' ' by {
            if e.1[q] == ' ' {
                assert(e.1.contains(' '));
            }
        }
        lemma_find_char_unique(e.1, ' ', e.1.len() as int);
        assert(l.take(e.0.len() as int) =~= e.0);
        assert(parse_line_spec(l) =~= seq![(e.0, e.1)]);
        assert forall|k: int| 0 <= k < m.skip(1).len() implies entry_text_ok(
            #[trigger] m.skip(1)[k],
        ) by {
            assert(m.skip(1)[k] == m[k + 1]);
        }
        lemma_progress_round_trip(m.skip(1));
        assert(parse_spec(s) =~= seq![(e.0, e.1)] + m.skip(1));
        assert(seq![(e.0, e.1)] + m.skip(1) =~= m);
    }
}

/// The entries of `m` whose mark in `b` is set, in order: what remains of a
/// loaded store once the entries whose artifact file vanished are dropped.
pub open spec fn keep_marked(m: Seq<(Seq<char>, Seq<char>)>, b: Seq<bool>) -> Seq<
    (Seq<char>, Seq<char>),
>
    decreases m.len(),
{
    if m.len() == 0 {
        Seq::empty()
    } else {
        (if b[0] {
            seq![m[0]]
        } else {
            Seq::empty()
        }) + keep_marked(m.skip(1), b.skip(1))
    }
}

/// Drop the entries whose artifact file no longer exists: entry `k` of
/// `entries` is kept exactly when `present[k]` is true. The caller supplies
/// in `present` the result of its file-existence checks, in entry order.
pub fn retain_existing(entries: Vec<ProgressEntry>, present: &Vec<bool>) -> (r: Vec<ProgressEntry>)
    requires
        entries@.len() == present@.len(),
    ensures
        entries_view(r@) == keep_marked(entries_view(entries@), present@),
{
    let ghost ev0 = entries_view(entries@);
    let n = entries.len();
    let mut rest = entries;
    let mut out: Vec<ProgressEntry> = Vec::new();
    let mut idx: usize = 0;
    proof {
        assert(entries_view(out@) =~= Seq::<(Seq<char>, Seq<char>)>::empty());
        assert(present@.skip(0) =~= present@);
    }
    while idx < n
        invariant
            n == present@.len(),
            idx + rest@.len() == n,
            entries_view(out@) + keep_marked(entries_view(rest@), present@.skip(idx as int))
                == keep_marked(ev0, present@),
        decreases n - idx,
    {
        let ghost rest_before = entries_view(rest@);
        let ghost out_before = entries_view(out@);
        let e = rest.remove(0);
        proof {
            assert(entries_view(rest@) =~= rest_before.skip(1));
            assert(rest_before[0] == (e.name@, e.path@));
            assert(present@.skip(idx as int).skip(1) =~= present@.skip(idx + 1));
        }
        if present[idx] {
            out.push(e);
            proof {
                assert(entries_view(out@) =~= out_before.push((e.name@, e.path@)));
                assert(out_before.push((e.name@, e.path@)) =~= out_before + seq![
                    (e.name@, e.path@),
                ]);
                assert(keep_marked(rest_before, present@.skip(idx as int)) == seq![
                    (e.name@, e.path@),
                ] + keep_marked(entries_view(rest@), present@.skip(idx + 1)));
                assert(entries_view(out@) + keep_marked(entries_view(rest@), present@.skip(idx + 1))
                    =~= out_before + keep_marked(rest_before, present@.skip(idx as int)));
            }
        } else {
            proof {
                assert(keep_marked(rest_before, present@.skip(idx as int)) =~= keep_marked(
                    entries_view(rest@),
                    present@.skip(idx + 1),
                ));
            }
        }
        idx += 1;
    }
    proof {
        assert(entries_view(rest@) =~= Seq::<(Seq<char>, Seq<char>)>::empty());
        assert(keep_marked(entries_view(rest@), present@.skip(n as int)) =~= Seq::<(
            Seq<char>,
            Seq<char>,
        )>::empty());
        assert(entries_view(out@) + Seq::<(Seq<char>, Seq<char>)>::empty() =~= entries_view(out@));
    }
    out
}

} // verus!
