//! The store engine: the in-memory mapping, its dirty flag, and its
//! synchronization with the contents of the backing file.
//!
//! The engine never touches the file system itself.  The caller reads the
//! backing file and hands its contents to [`Database::from_contents`], and
//! writes what [`Database::render`] returns back to the file, reporting a
//! completed write with [`Database::mark_clean`].

use vstd::prelude::*;
use crate::codec;
use crate::norm;

verus! {

/// Why the store engine refused its input.
#[derive(Clone, Copy, Debug, PartialEq, Eq, Structural)]
pub enum StoreError {
    /// A line of the backing file held no tab separator.
    MalformedRecord,
}

/// The mapping denoted by a sequence of entries, later entries overriding
/// earlier ones with the same key (last write wins).
pub open spec fn map_of_entries(es: Seq<(Seq<char>, Seq<char>)>) -> Map<Seq<char>, Seq<char>>
    decreases es.len(),
{
    if es.len() == 0 {
        Map::empty()
    } else {
        map_of_entries(es.drop_last()).insert(es.last().0, es.last().1)
    }
}

/// A key-value store: a mapping from text keys to text values, plus a flag
/// that records whether the mapping has diverged from the backing file
/// since it was last flushed.
pub struct Database {
    /// The entries of the mapping; no two entries share a key.
    pub entries: Vec<(String, String)>,
    /// Whether in-memory state has unflushed changes.
    pub dirty: bool,
}

impl View for Database {
    type V = Map<Seq<char>, Seq<char>>;

    open spec fn view(&self) -> Map<Seq<char>, Seq<char>> {
        map_of_entries(self.entry_views())
    }
}

impl Database {
    /// The entries as character sequences.
    pub open spec fn entry_views(&self) -> Seq<(Seq<char>, Seq<char>)> {
        self.entries@.map_values(|e: (String, String)| (e.0@, e.1@))
    }

    /// Well-formed: no two entries share a key, so the entry list denotes
    /// its mapping unambiguously.
    pub open spec fn wf(&self) -> bool {
        forall|i: int, j: int|
            0 <= i < j < self.entry_views().len() ==> (#[trigger] self.entry_views()[i]).0 != (
            #[trigger] self.entry_views()[j]).0
    }

    /// The text a flush writes: the rendered form of the entries.
    pub open spec fn spec_render(&self) -> Seq<char> {
        codec::render_entries(self.entry_views())
    }

    /// A store with no entries and nothing to flush, as opening an absent
    /// backing file produces it.
    pub fn empty() -> (r: Database)
        ensures
            r.wf(),
            r@ == Map::<Seq<char>, Seq<char>>::empty(),
            !r.dirty,
    {
        let r = Database { entries: Vec::new(), dirty: false };
        proof {
            assert(r.entry_views() =~= Seq::<(Seq<char>, Seq<char>)>::empty());
        }
        r
    }

    /// Position of the entry carrying exactly `key`, if one does.
    fn find_index(&self, key: &String) -> (r: Option<usize>)
        ensures
            match r {
                Some(i) => i < self.entry_views().len() && self.entry_views()[i as int].0 == key@,
                None => forall|i: int|
                    0 <= i < self.entry_views().len() ==> (#[trigger] self.entry_views()[i]).0
                        != key@,
            },
    {
        let n: usize = self.entries.len();
        let mut i: usize = 0;
        while i < n
            invariant
                n == self.entries.len(),
                forall|j: int| 0 <= j < i ==> (#[trigger] self.entry_views()[j]).0 != key@,
            decreases n - i,
        {
            if self.entries[i].0 == *key {
                return Some(i);
            }
            i = i + 1;
        }
        None
    }

    /// Look a key up, case-insensitively: the value stored under the
    /// uppercase form of `key`, or nothing when no entry carries it.  A
    /// missing key is a normal outcome, not an error.
    pub fn get(&self, key: &str) -> (r: Option<&String>)
        requires
            self.wf(),
        ensures
            match r {
                Some(v) => self@.contains_key(norm::upper_of(key@)) && v@ == self@[norm::upper_of(
                    key@,
                )],
                None => !self@.contains_key(norm::upper_of(key@)),
            },
            vstd::utf8::is_ascii_chars(key@) ==> norm::upper_of(key@) == norm::ascii_upper(key@),
    {
        let up = norm::to_upper(key);
        match self.find_index(&up) {
            Some(i) => {
                proof {
                    lemma_map_of_entries_index(self.entry_views(), i as int);
                }
                Some(&self.entries[i].1)
            },
            None => {
                proof {
                    lemma_map_of_entries_absent(self.entry_views(), up@);
                }
                None
            },
        }
    }

    /// Insert or overwrite under `key` exactly as given, leaving the dirty
    /// flag alone.
    fn upsert(&mut self, key: String, value: String)
        requires
            old(self).wf(),
        ensures
            final(self).wf(),
            final(self)@ == old(self)@.insert(key@, value@),
            final(self).dirty == old(self).dirty,
    {
        let ghost old_views = self.entry_views();
        match self.find_index(&key) {
            Some(i) => {
                proof {
                    lemma_map_of_entries_update(old_views, i as int, (key@, value@));
                }
                self.entries[i] = (key, value);
                proof {
                    assert(self.entry_views() =~= old_views.update(i as int, (key@, value@)));
                    assert forall|p: int, q: int|
                        0 <= p < q < self.entry_views().len() implies (
                    #[trigger] self.entry_views()[p]).0 != (#[trigger] self.entry_views()[q]).0 by {
                        assert(self.entry_views()[p].0 == old_views[p].0);
                        assert(self.entry_views()[q].0 == old_views[q].0);
                    }
                }
            },
            None => {
                proof {
                    lemma_map_of_entries_push(old_views, (key@, value@));
                }
                self.entries.push((key, value));
                proof {
                    assert(self.entry_views() =~= old_views.push((key@, value@)));
                    assert forall|p: int, q: int|
                        0 <= p < q < self.entry_views().len() implies (
                    #[trigger] self.entry_views()[p]).0 != (#[trigger] self.entry_views()[q]).0 by {
                        if q < old_views.len() {
                            assert(self.entry_views()[p] == old_views[p]);
                            assert(self.entry_views()[q] == old_views[q]);
                        } else {
                            assert(self.entry_views()[p] == old_views[p]);
                            assert(self.entry_views()[q].0 == key@);
                        }
                    }
                }
            },
        }
    }

    /// Insert or overwrite: the value is stored under the uppercase form
    /// of `key`, and the store becomes dirty.  Insertion cannot fail.
    pub fn insert(&mut self, key: String, value: String)
        requires
            old(self).wf(),
        ensures
            final(self).wf(),
            final(self)@ == old(self)@.insert(norm::upper_of(key@), value@),
            final(self).dirty,
            vstd::utf8::is_ascii_chars(key@) ==> norm::upper_of(key@) == norm::ascii_upper(key@),
    {
        let up = norm::to_upper(key.as_str());
        self.upsert(up, value);
        self.dirty = true;
    }

    /// Build a store from the backing file's contents: decode every line,
    /// later lines overriding earlier ones with the same key.  Succeeds
    /// exactly when every line holds a tab separator; the store starts
    /// clean.
    pub fn from_contents(contents: &str) -> (r: Result<Database, StoreError>)
        ensures
            match r {
                Ok(db) => {
                    &&& codec::parse_contents(contents@) is Some
                    &&& db@ == map_of_entries(codec::parse_contents(contents@)->Some_0)
                    &&& db.wf()
                    &&& !db.dirty
                },
                Err(e) => {
                    &&& e == StoreError::MalformedRecord
                    &&& codec::parse_contents(contents@) is None
                },
            },
    {
        let lines = codec::split_lines_text(contents);
        let ghost line_views = lines@.map_values(|l: String| l@);
        let mut db = Database::empty();
        proof {
            assert(line_views.take(0) =~= Seq::<Seq<char>>::empty());
        }
        let n: usize = lines.len();
        let mut idx: usize = 0;
        while idx < n
            invariant
                n == lines.len(),
                idx <= n,
                line_views == lines@.map_values(|l: String| l@),
                line_views == codec::split_lines(contents@),
                codec::parse_lines(line_views.take(idx as int)) is Some,
                db@ == map_of_entries(codec::parse_lines(line_views.take(idx as int))->Some_0),
                db.wf(),
                !db.dirty,
            decreases n - idx,
        {
            match codec::decode(lines[idx].as_str()) {
                None => {
                    proof {
                        assert(codec::decode_line(line_views[idx as int]) is None);
                        codec::lemma_parse_none_iff_malformed(line_views);
                    }
                    return Err(StoreError::MalformedRecord);
                },
                Some(kv) => {
                    proof {
                        codec::lemma_parse_push(
                            line_views.take(idx as int),
                            line_views[idx as int],
                        );
                        assert(line_views.take(idx as int).push(line_views[idx as int])
                            =~= line_views.take(idx as int + 1));
                        lemma_map_of_entries_push(
                            codec::parse_lines(line_views.take(idx as int))->Some_0,
                            (kv.0@, kv.1@),
                        );
                    }
                    db.upsert(kv.0, kv.1);
                },
            }
            idx = idx + 1;
        }
        proof {
            assert(line_views.take(n as int) =~= line_views);
        }
        Ok(db)
    }

    /// Render the whole mapping as backing-file contents: every entry as
    /// one tab-separated, newline-terminated line, in entry order.
    pub fn render(&self) -> (r: String)
        ensures
            r@ == self.spec_render(),
    {
        let mut out = String::new();
        let n: usize = self.entries.len();
        let mut i: usize = 0;
        while i < n
            invariant
                n == self.entries.len(),
                i <= n,
                out@ == codec::render_entries(self.entry_views().take(i as int)),
            decreases n - i,
        {
            let line = codec::encode(self.entries[i].0.as_str(), self.entries[i].1.as_str());
            out.append(line.as_str());
            out.append("\n");
            proof {
                reveal_strlit("\n");
                assert(("\n")@ =~= seq!['\n']);
                let views = self.entry_views();
                let e = views[i as int];
                assert(views.take(i as int) + seq![e] =~= views.take(i as int + 1));
                codec::lemma_render_concat(views.take(i as int), seq![e]);
                assert(seq![e].drop_first() =~= Seq::<(Seq<char>, Seq<char>)>::empty());
                assert(codec::render_entries(Seq::<(Seq<char>, Seq<char>)>::empty())
                    == Seq::<char>::empty());
                assert(seq![e][0] == e);
                assert(codec::render_entries(seq![e]) == codec::encode_line(e.0, e.1) + seq!['\n']
                    + Seq::<char>::empty());
                assert(codec::render_entries(seq![e]) =~= codec::encode_line(e.0, e.1) + seq![
                    '\n',
                ]);
                assert(out@ =~= codec::render_entries(views.take(i as int + 1)));
            }
            i = i + 1;
        }
        proof {
            assert(self.entry_views().take(n as int) =~= self.entry_views());
        }
        out
    }

    /// Record that a flush reached the backing file: the mapping is
    /// unchanged and no longer dirty.  Called by the owner of the backing
    /// file once it has written the rendered contents out in full.
    pub fn mark_clean(&mut self)
        ensures
            final(self).entries == old(self).entries,
            final(self)@ == old(self)@,
            final(self).spec_render() == old(self).spec_render(),
            !final(self).dirty,
            old(self).wf() ==> final(self).wf(),
    {
        self.dirty = false;
    }

    /// Whether the mapping holds changes the backing file has not seen.
    pub fn is_dirty(&self) -> (r: bool)
        ensures
            r == self.dirty,
    {
        self.dirty
    }
}

/// Flushing twice in a row with no intervening insert writes identical
/// contents both times: what a flush writes depends on the entries alone,
/// and a completed flush leaves the entries unchanged.
pub proof fn lemma_flush_idempotent(before: Database, after: Database)
    requires
        after.entries == before.entries,
    ensures
        after.spec_render() == before.spec_render(),
{
}

/// Round trip at the store level: parsing the rendered contents of a store
/// reproduces its entries, and so its mapping, provided every key is free
/// of tabs and newlines and every value is free of newlines.
pub proof fn lemma_store_round_trip(db: Database)
    requires
        forall|i: int|
            0 <= i < db.entry_views().len() ==> codec::valid_key(
                (#[trigger] db.entry_views()[i]).0,
            ) && codec::valid_value(db.entry_views()[i].1),
    ensures
        codec::parse_contents(db.spec_render()) == Some(db.entry_views()),
        map_of_entries(codec::parse_contents(db.spec_render())->Some_0) == db@,
{
    codec::lemma_round_trip(db.entry_views());
}

/// Each entry of a well-formed entry sequence is present in its mapping,
/// under its own key and with its own value.
proof fn lemma_map_of_entries_index(es: Seq<(Seq<char>, Seq<char>)>, i: int)
    requires
        0 <= i < es.len(),
        forall|p: int, q: int|
            0 <= p < q < es.len() ==> (#[trigger] es[p]).0 != (#[trigger] es[q]).0,
    ensures
        map_of_entries(es).contains_key(es[i].0),
        map_of_entries(es)[es[i].0] == es[i].1,
    decreases es.len(),
{
    if i < es.len() - 1 {
        assert(es.drop_last()[i] == es[i]);
        lemma_map_of_entries_index(es.drop_last(), i);
        assert(es[i].0 != es.last().0);
    }
}

/// A key that no entry carries is absent from the mapping.
proof fn lemma_map_of_entries_absent(es: Seq<(Seq<char>, Seq<char>)>, k: Seq<char>)
    requires
        forall|i: int| 0 <= i < es.len() ==> (#[trigger] es[i]).0 != k,
    ensures
        !map_of_entries(es).contains_key(k),
    decreases es.len(),
{
    if es.len() > 0 {
        assert(forall|i: int|
            0 <= i < es.drop_last().len() ==> #[trigger] es.drop_last()[i] == es[i]);
        lemma_map_of_entries_absent(es.drop_last(), k);
        assert(es.last().0 != k);
    }
}

/// Appending an entry inserts its pair into the mapping.
proof fn lemma_map_of_entries_push(es: Seq<(Seq<char>, Seq<char>)>, e: (Seq<char>, Seq<char>))
    ensures
        map_of_entries(es.push(e)) == map_of_entries(es).insert(e.0, e.1),
{
    assert(es.push(e).drop_last() =~= es);
    assert(es.push(e).last() == e);
}

/// Overwriting the entry that carries key `k` updates the mapping at `k`
/// alone.
proof fn lemma_map_of_entries_update(
    es: Seq<(Seq<char>, Seq<char>)>,
    i: int,
    e: (Seq<char>, Seq<char>),
)
    requires
        0 <= i < es.len(),
        es[i].0 == e.0,
        forall|p: int, q: int|
            0 <= p < q < es.len() ==> (#[trigger] es[p]).0 != (#[trigger] es[q]).0,
    ensures
        map_of_entries(es.update(i, e)) == map_of_entries(es).insert(e.0, e.1),
    decreases es.len(),
{
    if i == es.len() - 1 {
        assert(es.update(i, e).drop_last() =~= es.drop_last());
        assert(es.update(i, e).last() == e);
        assert(map_of_entries(es.update(i, e)) == map_of_entries(es.drop_last()).insert(
            e.0,
            e.1,
        ));
        assert(map_of_entries(es.drop_last()).insert(es.last().0, es.last().1).insert(e.0, e.1)
            =~= map_of_entries(es.drop_last()).insert(e.0, e.1));
    } else {
        assert(es.update(i, e).drop_last() =~= es.drop_last().update(i, e));
        assert(es.update(i, e).last() == es.last());
        assert(forall|p: int, q: int|
            0 <= p < q < es.drop_last().len() ==> (#[trigger] es.drop_last()[p]).0 != (
            #[trigger] es.drop_last()[q]).0);
        assert(es.drop_last()[i] == es[i]);
        lemma_map_of_entries_update(es.drop_last(), i, e);
        assert(es[i].0 != es.last().0);
        assert(map_of_entries(es.drop_last()).insert(e.0, e.1).insert(es.last().0, es.last().1)
            =~= map_of_entries(es.drop_last()).insert(es.last().0, es.last().1).insert(
            e.0,
            e.1,
        ));
    }
}

} // verus!
