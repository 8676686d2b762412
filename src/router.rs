//! The request dispatcher: classifies a request path and drives lookups,
//! lazy expiry and entry creation.

use vstd::prelude::*;
use crate::entry::{build_entry, entry_of, find_from, first_index};
use crate::ident::{generate_id, id_len, is_letter};
use crate::store::{Config, ConfigView, EntryView};
use crate::timestamp::{chars_of, get_now, ClockError};

verus! {

/// What a request comes to.
#[derive(Debug)]
pub enum Outcome {
    /// The index page.
    Index,
    /// The favicon.
    Favicon,
    /// A redirect to the stored URL.
    Redirect(String),
    /// Nothing there.
    NotFound,
    /// The entry had expired and was removed; answered as not found.
    Evicted,
    /// The blank add form.
    AddForm,
    /// The add form again: the submission had no usable URL.
    AddInvalid,
    /// A new entry, with its full short link.
    Added(String),
    /// The path lies outside the mount prefix.
    Unmatched,
}

pub enum OutcomeView {
    Index,
    Favicon,
    Redirect(Seq<char>),
    NotFound,
    Evicted,
    AddForm,
    AddInvalid,
    Added(Seq<char>),
    Unmatched,
}

impl View for Outcome {
    type V = OutcomeView;

    open spec fn view(&self) -> OutcomeView {
        match self {
            Outcome::Index => OutcomeView::Index,
            Outcome::Favicon => OutcomeView::Favicon,
            Outcome::Redirect(s) => OutcomeView::Redirect(s@),
            Outcome::NotFound => OutcomeView::NotFound,
            Outcome::Evicted => OutcomeView::Evicted,
            Outcome::AddForm => OutcomeView::AddForm,
            Outcome::AddInvalid => OutcomeView::AddInvalid,
            Outcome::Added(s) => OutcomeView::Added(s@),
            Outcome::Unmatched => OutcomeView::Unmatched,
        }
    }
}

impl Outcome {
    /// Whether the request changed the store, so that it must be written out.
    pub fn changes_store(&self) -> (r: bool)
        ensures
            r == (self@ is Evicted || self@ is Added),
    {
        match self {
            Outcome::Evicted => true,
            Outcome::Added(_) => true,
            _ => false,
        }
    }
}

pub open spec fn starts_with(s: Seq<char>, p: Seq<char>) -> bool {
    p.len() <= s.len() && s.subrange(0, p.len() as int) == p
}

pub open spec fn occurs_at(s: Seq<char>, w: Seq<char>, i: int) -> bool {
    0 <= i && i + w.len() <= s.len() && s.subrange(i, i + w.len()) == w
}

pub open spec fn contains_seq(s: Seq<char>, w: Seq<char>) -> bool {
    exists|i: int| occurs_at(s, w, i)
}

pub open spec fn favicon_name() -> Seq<char> {
    seq!['f', 'a', 'v', 'i', 'c', 'o', 'n', '.', 'i', 'c', 'o']
}

pub open spec fn add_word() -> Seq<char> {
    seq!['a', 'd', 'd']
}

/// The path under which all routes live: `/` and the mount prefix.
pub open spec fn mount_of(c: ConfigView) -> Seq<char> {
    seq!['/'] + c.url_path
}

/// The directory that holds the routes: `/`, and the mount prefix with a
/// `/` after it where there is one.
pub open spec fn dir_of(c: ConfigView) -> Seq<char> {
    if c.url_path.len() == 0 {
        seq!['/']
    } else {
        seq!['/'] + c.url_path + seq!['/']
    }
}

/// The absolute short link for identifier `id`.
pub open spec fn link_of(c: ConfigView, id: Seq<char>) -> Seq<char> {
    if c.url_path.len() > 0 {
        c.host + seq!['/'] + c.url_path + seq!['/'] + c.link_path + seq!['/'] + id
    } else {
        c.host + seq!['/'] + c.link_path + seq!['/'] + id
    }
}

/// An entry whose nonzero expiry time has been reached at `now`.
pub open spec fn expired(e: EntryView, now: u64) -> bool {
    match e.delete {
        Some(t) => t != 0 && t <= now,
        None => false,
    }
}

/// The outcome of a request for `path` at time `now`, and the configuration
/// after it; `fresh` is the identifier generated for a new entry.
pub open spec fn step(c: ConfigView, path: Seq<char>, now: u64, fresh: Seq<char>) -> (OutcomeView, ConfigView) {
    let mount = mount_of(c);
    let dir = dir_of(c);
    if path == mount || path == mount.push('/') {
        (OutcomeView::Index, c)
    } else if starts_with(path, dir) {
        let sub = path.subrange(dir.len() as int, path.len() as int);
        if contains_seq(sub, favicon_name()) {
            (OutcomeView::Favicon, c)
        } else if starts_with(sub, c.link_path.push('/')) {
            let key = sub.subrange((c.link_path.len() + 1) as int, sub.len() as int);
            if !c.entries.contains_key(key) {
                (OutcomeView::NotFound, c)
            } else if expired(c.entries[key], now) {
                (OutcomeView::Evicted, ConfigView {
                    entries: c.entries.remove(key),
                    entries_len: (c.entries_len - 1) as u64,
                    ..c
                })
            } else {
                (OutcomeView::Redirect(c.entries[key].url), c)
            }
        } else if starts_with(sub, add_word()) && c.allow_new {
            let q = first_index(sub, '?');
            if q < sub.len() {
                let e = entry_of(sub.subrange((q + 1) as int, sub.len() as int), c.entries.dom(), fresh, now);
                if e.url.len() == 0 {
                    (OutcomeView::AddInvalid, c)
                } else {
                    (OutcomeView::Added(link_of(c, e.id)), ConfigView {
                        entries: c.entries.insert(e.id, e),
                        entries_len: if c.entries.contains_key(e.id) {
                            c.entries_len
                        } else {
                            (c.entries_len + 1) as u64
                        },
                        ..c
                    })
                }
            } else {
                (OutcomeView::AddForm, c)
            }
        } else {
            (OutcomeView::NotFound, c)
        }
    } else {
        (OutcomeView::Unmatched, c)
    }
}

/// Whether `word` stands in `cs` at position `from`.
fn occurs(cs: &Vec<char>, from: usize, word: &Vec<char>) -> (r: bool)
    ensures
        r == occurs_at(cs@, word@, from as int),
{
    if from > cs.len() || word.len() > cs.len() - from {
        return false;
    }
    let mut i: usize = 0;
    while i < word.len()
        invariant
            from + word@.len() <= cs@.len(),
            cs@.len() <= usize::MAX,
            i <= word@.len(),
            forall|j: int| 0 <= j < i ==> cs@[from + j] == word@[j],
        decreases word@.len() - i,
    {
        if cs[from + i] != word[i] {
            assert(cs@.subrange(from as int, from + word@.len())[i as int] != word@[i as int]);
            return false;
        }
        i = i + 1;
    }
    assert(cs@.subrange(from as int, from + word@.len()) =~= word@);
    true
}

/// Whether `word` stands anywhere in `cs[from..]`.
fn occurs_after(cs: &Vec<char>, from: usize, word: &Vec<char>) -> (r: bool)
    requires
        from <= cs@.len(),
    ensures
        r == contains_seq(cs@.subrange(from as int, cs@.len() as int), word@),
{
    let ghost sub = cs@.subrange(from as int, cs@.len() as int);
    let mut i: usize = from;
    loop
        invariant
            from <= i <= cs@.len(),
            sub == cs@.subrange(from as int, cs@.len() as int),
            forall|j: int| 0 <= j < i - from ==> !occurs_at(sub, word@, j),
        decreases cs@.len() - i,
    {
        if occurs(cs, i, word) {
            assert(sub.subrange(i - from, i - from + word@.len()) =~= cs@.subrange(i as int, i + word@.len()));
            assert(occurs_at(sub, word@, i - from));
            return true;
        }
        assert(!occurs_at(sub, word@, i - from)) by {
            if occurs_at(sub, word@, i - from) {
                assert(sub.subrange(i - from, i - from + word@.len()) =~= cs@.subrange(i as int, i + word@.len()));
            }
        }
        if i == cs.len() {
            assert forall|j: int| !occurs_at(sub, word@, j) by {
                if 0 <= j && j + word@.len() <= sub.len() {
                    assert(j <= i - from);
                }
            }
            return false;
        }
        i = i + 1;
    }
}

/// `s` followed by the characters of `t`.
fn push_all(s: &mut Vec<char>, t: &Vec<char>)
    ensures
        final(s)@ == old(s)@ + t@,
{
    let mut i: usize = 0;
    while i < t.len()
        invariant
            i <= t@.len(),
            s@ == old(s)@ + t@.subrange(0, i as int),
        decreases t@.len() - i,
    {
        s.push(t[i]);
        i = i + 1;
    }
    assert(t@.subrange(0, t@.len() as int) =~= t@);
}

/// The absolute short link for identifier `id`.
fn make_link(config: &Config, id: &String) -> (r: String)
    ensures
        r@ == link_of(config@, id@),
{
    let mut r = config.host.clone();
    r.append("/");
    if config.url_path.as_str().unicode_len() > 0 {
        r.append(config.url_path.as_str());
        r.append("/");
    }
    r.append(config.link_path.as_str());
    r.append("/");
    r.append(id.as_str());
    proof {
        reveal_strlit("/");
        assert(r@ =~= link_of(config@, id@));
    }
    r
}

/// Handles a request for `path` at time `now`; a new entry, if one is made,
/// gets `fresh_id` unless the form names an unused identifier of its own.
pub fn dispatch(config: &mut Config, path: &str, now: u64, fresh_id: String) -> (r: Outcome)
    requires
        old(config).wf(),
    ensures
        final(config).wf(),
        (r@, final(config)@) == step(old(config)@, path@, now, fresh_id@),
{
    let ghost c = config@;
    let pc = chars_of(path);
    let n = pc.len();
    let mut mount: Vec<char> = vec!['/'];
    let up = chars_of(config.url_path.as_str());
    push_all(&mut mount, &up);
    let mm = mount.len();
    assert(mount@ =~= mount_of(c));
    let at_mount = occurs(&pc, 0, &mount);
    assert(at_mount == starts_with(pc@, mount_of(c)));
    if at_mount && (n == mm || (n == mm + 1 && pc[mm] == '/')) {
        assert(pc@ =~= mount_of(c) || pc@ =~= mount_of(c).push('/')) by {
            if n == mm {
                assert(pc@ =~= pc@.subrange(0, mm as int));
            } else {
                assert(pc@ =~= pc@.subrange(0, mm as int).push('/'));
            }
        }
        return Outcome::Index;
    }
    assert(pc@ != mount_of(c) && pc@ != mount_of(c).push('/')) by {
        if pc@ == mount_of(c) {
            assert(pc@.subrange(0, mm as int) =~= pc@);
        }
        if pc@ == mount_of(c).push('/') {
            assert(pc@.subrange(0, mm as int) =~= mount_of(c));
            assert(pc@[mm as int] == '/');
        }
    }
    let mut dir: Vec<char> = vec!['/'];
    push_all(&mut dir, &up);
    if up.len() > 0 {
        dir.push('/');
    }
    let m = dir.len();
    assert(dir@ =~= dir_of(c));
    let at_dir = occurs(&pc, 0, &dir);
    assert(at_dir == starts_with(pc@, dir_of(c)));
    if !at_dir {
        return Outcome::Unmatched;
    }
    let ghost sub = pc@.subrange(m as int, n as int);
    let fav: Vec<char> = vec!['f', 'a', 'v', 'i', 'c', 'o', 'n', '.', 'i', 'c', 'o'];
    assert(fav@ =~= favicon_name());
    if occurs_after(&pc, m, &fav) {
        return Outcome::Favicon;
    }
    let mut link_dir = chars_of(config.link_path.as_str());
    link_dir.push('/');
    let ld = link_dir.len();
    if occurs(&pc, m, &link_dir) {
        assert(starts_with(sub, c.link_path.push('/'))) by {
            assert(sub.subrange(0, ld as int) =~= pc@.subrange(m as int, m + ld));
        }
        let key = path.substring_char(m + ld, n).to_owned();
        assert(key@ =~= sub.subrange((c.link_path.len() + 1) as int, sub.len() as int));
        match config.find(&key) {
            None => {
                return Outcome::NotFound;
            },
            Some(i) => {
                proof {
                    crate::store::lemma_map_of_index(config.entries@, i as int);
                }
                let expired_now = match config.entries[i].delete {
                    Some(t) => t != 0 && t <= now,
                    None => false,
                };
                if expired_now {
                    config.remove_at(i);
                    return Outcome::Evicted;
                } else {
                    return Outcome::Redirect(config.entries[i].url.clone());
                }
            },
        }
    }
    assert(!starts_with(sub, c.link_path.push('/'))) by {
        if starts_with(sub, c.link_path.push('/')) {
            assert(sub.subrange(0, ld as int) =~= pc@.subrange(m as int, m + ld));
        }
    }
    let add: Vec<char> = vec!['a', 'd', 'd'];
    let at_add = occurs(&pc, m, &add);
    assert(at_add == starts_with(sub, add_word())) by {
        assert(add@ =~= add_word());
        if m + 3 <= n {
            assert(sub.subrange(0, 3) =~= pc@.subrange(m as int, m + 3));
        }
    }
    if !(at_add && config.allow_new) {
        return Outcome::NotFound;
    }
    let q = find_from(&pc, m, n, '?');
    if q == n {
        return Outcome::AddForm;
    }
    let data = path.substring_char(q + 1, n);
    assert(data@ =~= sub.subrange((first_index(sub, '?') + 1) as int, sub.len() as int));
    let e = build_entry(config, data, fresh_id, now);
    if e.url.as_str().unicode_len() == 0 {
        return Outcome::AddInvalid;
    }
    let id = e.id.clone();
    config.insert_entry(e);
    let link = make_link(config, &id);
    Outcome::Added(link)
}

/// Handles a request for `path` with the current time and a freshly
/// generated identifier; an error, with nothing changed, where the clock reads
/// before the epoch.
pub fn handle_request(config: &mut Config, path: &str) -> (r: Result<Outcome, ClockError>)
    requires
        old(config).wf(),
    ensures
        final(config).wf(),
        r is Err ==> *final(config) == *old(config),
        r matches Ok(o) ==> exists|now: u64, fresh: Seq<char>|
            fresh.len() == id_len(old(config).entries_len as nat)
            && (forall|i: int| 0 <= i < fresh.len() ==> is_letter(#[trigger] fresh[i]))
            && (o@, final(config)@) == step(old(config)@, path@, now, fresh),
{
    let now = match get_now() {
        Ok(t) => t,
        Err(err) => {
            return Err(err);
        },
    };
    let fresh = generate_id(config.entries_len);
    let o = dispatch(config, path, now, fresh);
    Ok(o)
}

/// The path that resolves identifier `id`: the mount, the link segment, a
/// `/` and the identifier.
pub open spec fn resolve_path(c: ConfigView, id: Seq<char>) -> Seq<char> {
    dir_of(c) + c.link_path.push('/') + id
}

proof fn lemma_resolve_route(c: ConfigView, id: Seq<char>, now: u64, fresh: Seq<char>)
    requires
        id.len() > 0,
        !contains_seq(c.link_path.push('/') + id, favicon_name()),
    ensures
        step(c, resolve_path(c, id), now, fresh) == (if !c.entries.contains_key(id) {
            (OutcomeView::NotFound, c)
        } else if expired(c.entries[id], now) {
            (OutcomeView::Evicted, ConfigView {
                entries: c.entries.remove(id),
                entries_len: (c.entries_len - 1) as u64,
                ..c
            })
        } else {
            (OutcomeView::Redirect(c.entries[id].url), c)
        }),
{
    let path = resolve_path(c, id);
    let mount = mount_of(c);
    let dir = dir_of(c);
    let rest = c.link_path.push('/') + id;
    assert(path.len() == dir.len() + rest.len());
    assert(path != mount && path != mount.push('/'));
    assert(path.subrange(0, dir.len() as int) =~= dir);
    let sub = path.subrange(dir.len() as int, path.len() as int);
    assert(sub =~= rest);
    assert(sub.subrange(0, (c.link_path.len() + 1) as int) =~= c.link_path.push('/'));
    assert(sub.subrange((c.link_path.len() + 1) as int, sub.len() as int) =~= id);
}

/// A stored entry that never expires (no expiry time, or zero) resolves to
/// a redirect to its URL at any time, and resolving leaves the configuration
/// as it was, so that it can be repeated indefinitely.
pub proof fn lemma_resolve_unexpiring(c: ConfigView, id: Seq<char>, now: u64, fresh: Seq<char>)
    requires
        c.entries.contains_key(id),
        c.entries[id].delete is None || c.entries[id].delete == Some(0u64),
        id.len() > 0,
        !contains_seq(c.link_path.push('/') + id, favicon_name()),
    ensures
        step(c, resolve_path(c, id), now, fresh) == (OutcomeView::Redirect(c.entries[id].url), c),
{
    lemma_resolve_route(c, id, now, fresh);
}

/// An entry that expires at `t` resolves to a redirect before `t`; from `t`
/// on, resolving answers that it was evicted, removes it, lowers the count by
/// one, and any later resolve of it finds nothing.
pub proof fn lemma_resolve_expiring(
    c: ConfigView,
    id: Seq<char>,
    t: u64,
    now: u64,
    later: u64,
    fresh: Seq<char>,
    fresh2: Seq<char>,
)
    requires
        c.entries.dom().finite(),
        c.entries_len as nat == c.entries.len(),
        c.entries.contains_key(id),
        c.entries[id].delete == Some(t),
        t != 0,
        id.len() > 0,
        !contains_seq(c.link_path.push('/') + id, favicon_name()),
    ensures
        now < t ==> step(c, resolve_path(c, id), now, fresh) == (OutcomeView::Redirect(c.entries[id].url), c),
        now >= t ==> ({
            let (o, c2) = step(c, resolve_path(c, id), now, fresh);
            &&& o is Evicted
            &&& c2.entries == c.entries.remove(id)
            &&& !c2.entries.contains_key(id)
            &&& c2.entries_len as nat == c.entries_len as nat - 1
            &&& step(c2, resolve_path(c2, id), later, fresh2) == (OutcomeView::NotFound, c2)
        }),
{
    lemma_resolve_route(c, id, now, fresh);
    if now >= t {
        let c2 = step(c, resolve_path(c, id), now, fresh).1;
        vstd::set::axiom_set_remove_len(c.entries.dom(), id);
        assert(c.entries.len() >= 1);
        assert(c2.link_path == c.link_path);
        lemma_resolve_route(c2, id, later, fresh2);
    }
}

/// `add?url=`: an add request with an empty URL.
pub open spec fn empty_add_query() -> Seq<char> {
    seq!['a', 'd', 'd', '?', 'u', 'r', 'l', '=']
}

/// Submitting an empty URL re-serves the add form and leaves the
/// configuration, and so the entry store, as it was.
pub proof fn lemma_empty_url_rejected(c: ConfigView, now: u64, fresh: Seq<char>)
    requires
        c.allow_new,
    ensures
        step(c, dir_of(c) + empty_add_query(), now, fresh) == (OutcomeView::AddInvalid, c),
{
    reveal(crate::entry::apply_field);
    let mount = mount_of(c);
    let dir = dir_of(c);
    let q = empty_add_query();
    let path = dir + q;
    assert(path.len() == dir.len() + 8);
    assert(path != mount && path != mount.push('/'));
    assert(path.subrange(0, dir.len() as int) =~= dir);
    let sub = path.subrange(dir.len() as int, path.len() as int);
    assert(sub =~= q);
    assert(!contains_seq(sub, favicon_name()));
    assert(!starts_with(sub, c.link_path.push('/'))) by {
        if starts_with(sub, c.link_path.push('/')) {
            let k = c.link_path.len() as int;
            assert(sub.subrange(0, k + 1)[k] == sub[k]);
        }
    }
    assert(sub.subrange(0, 3) =~= add_word());
    assert(first_index(q, '?') == 3) by {
        crate::entry::lemma_first_index(q, '?', 3);
    }
    let data = sub.subrange(4, 8);
    assert(data =~= seq!['u', 'r', 'l', '=']);
    crate::entry::lemma_first_index(data, '&', 4);
    crate::entry::lemma_first_index(data, '=', 3);
    assert(data.subrange(0, 4) =~= data);
    assert(data.subrange(0, 3) =~= crate::entry::url_key());
    assert(data.subrange(4, 4).len() == 0);
}

/// The link handed out for a new entry is the host followed by the path
/// that resolves it.
pub proof fn lemma_link_resolves(c: ConfigView, id: Seq<char>)
    ensures
        link_of(c, id) == c.host + resolve_path(c, id),
{
    assert(link_of(c, id) =~= c.host + resolve_path(c, id));
}

} // verus!
