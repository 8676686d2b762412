//! The service's configuration and its entry store: entries with unique
//! identifiers, viewed as a map from identifier to entry.

use vstd::prelude::*;

verus! {

/// One short-identifier-to-URL mapping.
#[derive(Debug)]
pub struct Entry {
    pub id: String,
    pub url: String,
    /// Epoch seconds at creation.
    pub created: u64,
    /// Epoch seconds at which the entry expires; `None` or zero: never.
    pub delete: Option<u64>,
}

pub struct EntryView {
    pub id: Seq<char>,
    pub url: Seq<char>,
    pub created: u64,
    pub delete: Option<u64>,
}

impl View for Entry {
    type V = EntryView;

    open spec fn view(&self) -> EntryView {
        EntryView { id: self.id@, url: self.url@, created: self.created, delete: self.delete }
    }
}

/// The entries of `s`, keyed by identifier; a later entry wins.
pub open spec fn map_of(s: Seq<Entry>) -> Map<Seq<char>, EntryView>
    decreases s.len(),
{
    if s.len() == 0 {
        Map::empty()
    } else {
        map_of(s.drop_last()).insert(s.last().id@, s.last()@)
    }
}

pub open spec fn ids_unique(s: Seq<Entry>) -> bool {
    forall|i: int, j: int| 0 <= i < j < s.len() ==> s[i].id@ != s[j].id@
}

/// Process-wide settings and the entry store.
pub struct Config {
    /// Base URL for the absolute links shown to callers.
    pub host: String,
    /// Path segment under which all routes live; empty for the root.
    pub url_path: String,
    /// Path segment that precedes a short identifier.
    pub link_path: String,
    pub port: u16,
    pub entries: Vec<Entry>,
    /// The number of entries.
    pub entries_len: u64,
    /// Whether new entries may be created.
    pub allow_new: bool,
}

pub struct ConfigView {
    pub host: Seq<char>,
    pub url_path: Seq<char>,
    pub link_path: Seq<char>,
    pub port: u16,
    pub entries: Map<Seq<char>, EntryView>,
    pub entries_len: u64,
    pub allow_new: bool,
}

impl View for Config {
    type V = ConfigView;

    open spec fn view(&self) -> ConfigView {
        ConfigView {
            host: self.host@,
            url_path: self.url_path@,
            link_path: self.link_path@,
            port: self.port,
            entries: map_of(self.entries@),
            entries_len: self.entries_len,
            allow_new: self.allow_new,
        }
    }
}

impl Config {
    /// Identifiers are unique and the count matches the store.
    pub open spec fn wf(&self) -> bool {
        &&& ids_unique(self.entries@)
        &&& self.entries_len as nat == self.entries@.len()
    }

    /// A configuration with no entries.
    pub fn new(host: String, url_path: String, link_path: String, port: u16, allow_new: bool) -> (r: Config)
        ensures
            r.wf(),
            r@.host == host@,
            r@.url_path == url_path@,
            r@.link_path == link_path@,
            r@.port == port,
            r@.allow_new == allow_new,
            r@.entries == Map::<Seq<char>, EntryView>::empty(),
            r@.entries_len == 0,
    {
        Config { host, url_path, link_path, port, entries: Vec::new(), entries_len: 0, allow_new }
    }

    /// The position of the entry with identifier `id`, if any.
    pub fn find(&self, id: &String) -> (r: Option<usize>)
        requires
            self.wf(),
        ensures
            match r {
                Some(i) => i < self.entries@.len() && self.entries@[i as int].id@ == id@,
                None => !self@.entries.contains_key(id@),
            },
            r is Some <==> self@.entries.contains_key(id@),
    {
        let mut i: usize = 0;
        while i < self.entries.len()
            invariant
                self.wf(),
                i <= self.entries@.len(),
                forall|j: int| 0 <= j < i ==> self.entries@[j].id@ != id@,
            decreases self.entries@.len() - i,
        {
            if self.entries[i].id == *id {
                proof {
                    lemma_map_of_index(self.entries@, i as int);
                }
                return Some(i);
            }
            i = i + 1;
        }
        proof {
            lemma_map_of_absent(self.entries@, id@);
        }
        None
    }

    /// Whether an entry has identifier `id`.
    pub fn contains_id(&self, id: &String) -> (r: bool)
        requires
            self.wf(),
        ensures
            r == self@.entries.contains_key(id@),
    {
        self.find(id).is_some()
    }

    /// Stores `e` under its identifier, replacing an entry with the same one.
    pub fn insert_entry(&mut self, e: Entry)
        requires
            old(self).wf(),
        ensures
            final(self).wf(),
            final(self)@ == (ConfigView {
                entries: old(self)@.entries.insert(e.id@, e@),
                entries_len: if old(self)@.entries.contains_key(e.id@) {
                    old(self)@.entries_len
                } else {
                    (old(self)@.entries_len + 1) as u64
                },
                ..old(self)@
            }),
    {
        match self.find(&e.id) {
            Some(i) => {
                proof {
                    lemma_map_of_update(self.entries@, i as int, e);
                }
                self.entries.set(i, e);
            },
            None => {
                let ghost s = self.entries@;
                self.entries.push(e);
                proof {
                    assert(self.entries@.drop_last() =~= s);
                    lemma_map_of_absent_all(s, e.id@);
                    assert(ids_unique(self.entries@)) by {
                        assert forall|a: int, b: int| 0 <= a < b < self.entries@.len() implies
                            self.entries@[a].id@ != self.entries@[b].id@ by {
                            if b == s.len() {
                                assert(self.entries@[a] == s[a]);
                            } else {
                                assert(self.entries@[a] == s[a]);
                                assert(self.entries@[b] == s[b]);
                            }
                        }
                    }
                }
                self.entries_len = self.entries.len() as u64;
            },
        }
    }

    /// Removes the entry at position `i`.
    pub fn remove_at(&mut self, i: usize)
        requires
            old(self).wf(),
            i < old(self).entries@.len(),
        ensures
            final(self).wf(),
            final(self)@ == (ConfigView {
                entries: old(self)@.entries.remove(old(self).entries@[i as int].id@),
                entries_len: (old(self)@.entries_len - 1) as u64,
                ..old(self)@
            }),
    {
        proof {
            lemma_map_of_remove(self.entries@, i as int);
        }
        self.entries.remove(i);
        self.entries_len = self.entries.len() as u64;
    }

    /// Sets the cached count to the number of entries.
    pub fn sync_count(&mut self)
        requires
            ids_unique(old(self).entries@),
        ensures
            final(self).wf(),
            final(self)@ == (ConfigView { entries_len: old(self).entries@.len() as u64, ..old(self)@ }),
    {
        self.entries_len = self.entries.len() as u64;
    }
}

pub(crate) proof fn lemma_map_of_index(s: Seq<Entry>, i: int)
    requires
        ids_unique(s),
        0 <= i < s.len(),
    ensures
        map_of(s).contains_key(s[i].id@),
        map_of(s)[s[i].id@] == s[i]@,
    decreases s.len(),
{
    if i < s.len() - 1 {
        let p = s.drop_last();
        assert(ids_unique(p)) by {
            assert forall|a: int, b: int| 0 <= a < b < p.len() implies p[a].id@ != p[b].id@ by {
                assert(p[a] == s[a] && p[b] == s[b]);
            }
        }
        assert(p[i] == s[i]);
        lemma_map_of_index(p, i);
        assert(s[i].id@ != s[s.len() - 1].id@);
    }
}

proof fn lemma_map_of_absent(s: Seq<Entry>, k: Seq<char>)
    requires
        forall|j: int| 0 <= j < s.len() ==> s[j].id@ != k,
    ensures
        !map_of(s).contains_key(k),
    decreases s.len(),
{
    if s.len() > 0 {
        let p = s.drop_last();
        assert forall|j: int| 0 <= j < p.len() implies p[j].id@ != k by {
            assert(p[j] == s[j]);
        }
        lemma_map_of_absent(p, k);
        assert(s[s.len() - 1].id@ != k);
    }
}

proof fn lemma_map_of_absent_all(s: Seq<Entry>, k: Seq<char>)
    requires
        !map_of(s).contains_key(k),
        ids_unique(s),
    ensures
        forall|j: int| 0 <= j < s.len() ==> s[j].id@ != k,
{
    assert forall|j: int| 0 <= j < s.len() implies s[j].id@ != k by {
        lemma_map_of_index(s, j);
    }
}

proof fn lemma_unique_drop_last(s: Seq<Entry>)
    requires
        ids_unique(s),
        s.len() > 0,
    ensures
        ids_unique(s.drop_last()),
        forall|j: int| 0 <= j < s.len() - 1 ==> s.drop_last()[j].id@ != s.last().id@,
{
    let p = s.drop_last();
    assert forall|a: int, b: int| 0 <= a < b < p.len() implies p[a].id@ != p[b].id@ by {
        assert(p[a] == s[a] && p[b] == s[b]);
    }
    assert forall|j: int| 0 <= j < s.len() - 1 implies p[j].id@ != s.last().id@ by {
        assert(p[j] == s[j]);
    }
}

proof fn lemma_map_of_update(s: Seq<Entry>, i: int, e: Entry)
    requires
        ids_unique(s),
        0 <= i < s.len(),
        s[i].id@ == e.id@,
    ensures
        ids_unique(s.update(i, e)),
        map_of(s.update(i, e)) == map_of(s).insert(e.id@, e@),
    decreases s.len(),
{
    let t = s.update(i, e);
    assert(ids_unique(t)) by {
        assert forall|a: int, b: int| 0 <= a < b < t.len() implies t[a].id@ != t[b].id@ by {
            assert(t[a].id@ == s[a].id@ && t[b].id@ == s[b].id@);
        }
    }
    lemma_unique_drop_last(s);
    if i == s.len() - 1 {
        assert(t.drop_last() =~= s.drop_last());
        assert(map_of(t) =~= map_of(s).insert(e.id@, e@));
    } else {
        assert(t.drop_last() =~= s.drop_last().update(i, e));
        lemma_map_of_update(s.drop_last(), i, e);
        assert(s.drop_last()[i] == s[i]);
        assert(e.id@ != s.last().id@);
        assert(map_of(t) =~= map_of(s).insert(e.id@, e@));
    }
}

proof fn lemma_map_of_remove(s: Seq<Entry>, i: int)
    requires
        ids_unique(s),
        0 <= i < s.len(),
    ensures
        ids_unique(s.remove(i)),
        map_of(s.remove(i)) == map_of(s).remove(s[i].id@),
    decreases s.len(),
{
    let t = s.remove(i);
    let k = s[i].id@;
    assert(ids_unique(t)) by {
        assert forall|a: int, b: int| 0 <= a < b < t.len() implies t[a].id@ != t[b].id@ by {
            let sa = if a < i { a } else { a + 1 };
            let sb = if b < i { b } else { b + 1 };
            assert(t[a] == s[sa] && t[b] == s[sb]);
        }
    }
    lemma_unique_drop_last(s);
    let p = s.drop_last();
    if i == s.len() - 1 {
        assert(t =~= p);
        assert forall|j: int| 0 <= j < p.len() implies p[j].id@ != k by {}
        lemma_map_of_absent(p, k);
        assert(map_of(t) =~= map_of(s).remove(k));
    } else {
        assert(t.drop_last() =~= p.remove(i));
        assert(t.last() == s.last());
        assert(p[i] == s[i]);
        lemma_map_of_remove(p, i);
        assert(s.last().id@ != k);
        assert(map_of(t) =~= map_of(s).remove(k));
    }
}

} // verus!
