//! Building a new entry from submitted form data.

use vstd::prelude::*;
use crate::ident::{generate_id, id_len, is_letter};
use crate::store::{Config, Entry, EntryView};
use crate::timestamp::{chars_of, get_now, timestamp_from_str, timestamp_of, ClockError};

verus! {

/// The text an optional string holds.
pub open spec fn text_opt(r: Option<String>) -> Option<Seq<char>> {
    match r {
        Some(v) => Some(v@),
        None => None,
    }
}

/// The percent-decoding of `s` as UTF-8 text, or `None` where the decoded
/// bytes are not UTF-8.
pub uninterp spec fn percent_decoded(s: Seq<char>) -> Option<Seq<char>>;

/// Relies on urlencoding's `decode`: it percent-decodes `s`, fails where the
/// result is not UTF-8, and hands back a text without `%` unchanged.
#[verifier::external_body]
fn decode_percent(s: &str) -> (r: Option<String>)
    ensures
        text_opt(r) == percent_decoded(s@),
        text_opt(r) == (if s@.contains('%') { percent_decoded(s@) } else { Some(s@) }),
{
    urlencoding::decode(s).ok().map(|c| c.into_owned())
}

/// The position of the first `c` in `s`, or its length where there is none.
pub open spec fn first_index(s: Seq<char>, c: char) -> nat
    decreases s.len(),
{
    if s.len() == 0 {
        0
    } else if s[0] == c {
        0
    } else {
        1 + first_index(s.drop_first(), c)
    }
}

/// The key of a `key=value` piece: what precedes its first `=`; empty where
/// it has none.
pub open spec fn field_key(piece: Seq<char>) -> Seq<char> {
    let e = first_index(piece, '=');
    if e < piece.len() {
        piece.subrange(0, e as int)
    } else {
        Seq::empty()
    }
}

/// The value of a `key=value` piece: what stands between its first and its
/// second `=` (or its end); empty where it has no `=`.
pub open spec fn field_value(piece: Seq<char>) -> Seq<char> {
    let e = first_index(piece, '=');
    if e < piece.len() {
        let rest = piece.subrange((e + 1) as int, piece.len() as int);
        rest.subrange(0, first_index(rest, '=') as int)
    } else {
        Seq::empty()
    }
}

/// The parts of a new entry that form fields decide.
pub struct Fields {
    pub url: Seq<char>,
    pub id: Seq<char>,
    pub delete: Option<u64>,
}

pub open spec fn url_key() -> Seq<char> {
    seq!['u', 'r', 'l']
}

pub open spec fn id_key() -> Seq<char> {
    seq!['i', 'd']
}

pub open spec fn time_key() -> Seq<char> {
    seq!['t', 'i', 'm', 'e']
}

/// One field's effect: a decodable non-empty `url` sets the target; a
/// non-empty `id` that no entry has sets the identifier; a non-empty `time`
/// whose timestamp lies after `created` sets the expiry. Others change nothing.
#[verifier::opaque]
pub open spec fn apply_field(
    st: Fields,
    key: Seq<char>,
    val: Seq<char>,
    taken: Set<Seq<char>>,
    created: u64,
) -> Fields {
    if key == url_key() {
        if val.len() > 0 && percent_decoded(val) is Some {
            Fields { url: percent_decoded(val)->0, ..st }
        } else {
            st
        }
    } else if key == id_key() {
        if val.len() > 0 && !taken.contains(val) {
            Fields { id: val, ..st }
        } else {
            st
        }
    } else if key == time_key() {
        if val.len() > 0 && timestamp_of(val) > created {
            Fields { delete: Some(timestamp_of(val) as u64), ..st }
        } else {
            st
        }
    } else {
        st
    }
}

/// The effect of the `&`-separated pieces of `data`, in order.
pub open spec fn apply_fields(data: Seq<char>, st: Fields, taken: Set<Seq<char>>, created: u64) -> Fields
    decreases data.len(),
{
    let e = first_index(data, '&');
    let piece = data.subrange(0, e as int);
    let next = apply_field(st, field_key(piece), field_value(piece), taken, created);
    if e < data.len() {
        apply_fields(data.subrange((e + 1) as int, data.len() as int), next, taken, created)
    } else {
        next
    }
}

/// The entry that form data `data` gives at time `now`, where `fresh` is the
/// generated identifier and `taken` the identifiers in use.
pub open spec fn entry_of(data: Seq<char>, taken: Set<Seq<char>>, fresh: Seq<char>, now: u64) -> EntryView {
    let f = apply_fields(data, Fields { url: Seq::empty(), id: fresh, delete: None }, taken, now);
    EntryView { id: f.id, url: f.url, created: now, delete: f.delete }
}

/// `first_index` is `k` where `s[k]` is the first `c` (or `k` is the length
/// and there is none).
pub proof fn lemma_first_index(s: Seq<char>, c: char, k: int)
    requires
        0 <= k <= s.len(),
        forall|j: int| 0 <= j < k ==> s[j] != c,
        k == s.len() || s[k] == c,
    ensures
        first_index(s, c) == k,
    decreases k,
{
    if k > 0 {
        let t = s.drop_first();
        assert forall|j: int| 0 <= j < k - 1 implies t[j] != c by {
            assert(t[j] == s[j + 1]);
        }
        if k < s.len() {
            assert(t[k - 1] == s[k]);
        }
        lemma_first_index(t, c, k - 1);
    }
}

/// The first position of `c` in `cs[from..to]`, or `to`.
pub(crate) fn find_from(cs: &Vec<char>, from: usize, to: usize, c: char) -> (r: usize)
    requires
        from <= to <= cs@.len(),
    ensures
        from <= r <= to,
        r - from == first_index(cs@.subrange(from as int, to as int), c),
{
    let mut i: usize = from;
    while i < to && cs[i] != c
        invariant
            from <= i <= to <= cs@.len(),
            forall|j: int| from <= j < i ==> cs@[j] != c,
        decreases to - i,
    {
        i = i + 1;
    }
    proof {
        let s = cs@.subrange(from as int, to as int);
        assert forall|j: int| 0 <= j < i - from implies s[j] != c by {
            assert(s[j] == cs@[from + j]);
        }
        lemma_first_index(s, c, i - from);
    }
    i
}

/// Whether `cs[from..to]` spells `word`.
fn range_is(cs: &Vec<char>, from: usize, to: usize, word: &Vec<char>) -> (r: bool)
    requires
        from <= to <= cs@.len(),
    ensures
        r == (cs@.subrange(from as int, to as int) == word@),
{
    if to - from != word.len() {
        return false;
    }
    let mut i: usize = 0;
    while i < word.len()
        invariant
            from <= to <= cs@.len(),
            to - from == word@.len(),
            i <= word@.len(),
            forall|j: int| 0 <= j < i ==> cs@[from + j] == word@[j],
        decreases word@.len() - i,
    {
        if cs[from + i] != word[i] {
            assert(cs@.subrange(from as int, to as int)[i as int] != word@[i as int]);
            return false;
        }
        i = i + 1;
    }
    assert(cs@.subrange(from as int, to as int) =~= word@);
    true
}

/// Applies the piece `cs[p..e]` of form data to the entry being built.
fn apply_piece(
    config: &Config,
    data: &str,
    cs: &Vec<char>,
    p: usize,
    e: usize,
    now: u64,
    url: &mut String,
    id: &mut String,
    delete: &mut Option<u64>,
)
    requires
        config.wf(),
        cs@ == data@,
        p <= e <= cs@.len(),
    ensures
        (Fields { url: final(url)@, id: final(id)@, delete: *final(delete) }) == apply_field(
            Fields { url: old(url)@, id: old(id)@, delete: *old(delete) },
            field_key(cs@.subrange(p as int, e as int)),
            field_value(cs@.subrange(p as int, e as int)),
            config@.entries.dom(),
            now,
        ),
{
    reveal(apply_field);
    let ghost piece = cs@.subrange(p as int, e as int);
    let url_word: Vec<char> = vec!['u', 'r', 'l'];
    let id_word: Vec<char> = vec!['i', 'd'];
    let time_word: Vec<char> = vec!['t', 'i', 'm', 'e'];
    assert(url_word@ =~= url_key());
    assert(id_word@ =~= id_key());
    assert(time_word@ =~= time_key());
    let k = find_from(cs, p, e, '=');
    if k == e {
        assert(field_key(piece) =~= Seq::<char>::empty());
        assert(url_key().len() == 3 && id_key().len() == 2 && time_key().len() == 4);
        return;
    }
    let v = find_from(cs, k + 1, e, '=');
    proof {
        assert(field_key(piece) =~= cs@.subrange(p as int, k as int));
        let r2 = piece.subrange(k - p + 1, piece.len() as int);
        assert(r2 =~= cs@.subrange(k + 1, e as int));
        assert(field_value(piece) =~= cs@.subrange(k + 1, v as int));
    }
    if v == k + 1 {
        return;
    }
    if range_is(cs, p, k, &url_word) {
        let sv = data.substring_char(k + 1, v);
        match decode_percent(sv) {
            Some(u) => {
                *url = u;
            },
            None => {},
        }
    } else if range_is(cs, p, k, &id_word) {
        let sv = data.substring_char(k + 1, v).to_owned();
        if !config.contains_id(&sv) {
            *id = sv;
        }
    } else if range_is(cs, p, k, &time_word) {
        let sv = data.substring_char(k + 1, v).to_owned();
        let ts = timestamp_from_str(sv);
        if ts > now {
            *delete = Some(ts);
        }
    }
}

/// The entry that form data `data` describes at time `now`: `fresh_id`
/// unless an unused `id` field overrides it, the decoded `url` field (empty
/// where absent or undecodable), and an expiry only where a `time` field
/// lies after `now`. The store is not changed.
#[verifier::rlimit(30)]
pub fn build_entry(config: &Config, data: &str, fresh_id: String, now: u64) -> (e: Entry)
    requires
        config.wf(),
    ensures
        e@ == entry_of(data@, config@.entries.dom(), fresh_id@, now),
{
    let ghost taken = config@.entries.dom();
    let cs = chars_of(data);
    let n = cs.len();
    let ghost fresh = fresh_id@;
    let mut url = String::new();
    let mut id = fresh_id;
    let mut delete: Option<u64> = None;
    let ghost init = Fields { url: Seq::empty(), id: fresh, delete: None };
    assert(cs@.subrange(0, n as int) =~= data@);
    let mut p: usize = 0;
    loop
        invariant
            config.wf(),
            taken == config@.entries.dom(),
            init == (Fields { url: Seq::empty(), id: fresh, delete: None }),
            fresh == fresh_id@,
            cs@ == data@,
            n == cs@.len(),
            p <= n,
            apply_fields(cs@.subrange(p as int, n as int), Fields { url: url@, id: id@, delete }, taken, now)
                == apply_fields(data@, init, taken, now),
        decreases n - p,
    {
        let ghost rest = cs@.subrange(p as int, n as int);
        let ghost st = Fields { url: url@, id: id@, delete };
        let e = find_from(&cs, p, n, '&');
        assert(rest.subrange(0, e - p) =~= cs@.subrange(p as int, e as int));
        apply_piece(config, data, &cs, p, e, now, &mut url, &mut id, &mut delete);
        assert(rest.subrange(0, first_index(rest, '&') as int) =~= cs@.subrange(p as int, e as int));
        if e == n {
            assert(apply_fields(rest, st, taken, now) == Fields { url: url@, id: id@, delete });
            let r = Entry { id, url, created: now, delete };
            assert(apply_fields(data@, init, taken, now).id == r.id@);
            assert(apply_fields(data@, init, taken, now).url == r.url@);
            assert(apply_fields(data@, init, taken, now).delete == r.delete);
            assert(r@ == entry_of(data@, taken, fresh, now));
            return r;
        }
        assert(rest.subrange(e - p + 1, rest.len() as int) =~= cs@.subrange(e + 1, n as int));
        p = e + 1;
    }
}

/// Builds the entry that form data `data` describes, with a freshly generated
/// identifier and the current time; an error where the clock reads before the
/// epoch.
pub fn process_entry(config: &Config, data: &str) -> (r: Result<Entry, ClockError>)
    requires
        config.wf(),
    ensures
        r matches Ok(e) ==> exists|fresh: Seq<char>, now: u64|
            fresh.len() == id_len(config.entries_len as nat)
            && (forall|i: int| 0 <= i < fresh.len() ==> is_letter(#[trigger] fresh[i]))
            && e@ == entry_of(data@, config@.entries.dom(), fresh, now),
{
    let now = match get_now() {
        Ok(t) => t,
        Err(err) => {
            return Err(err);
        },
    };
    let fresh = generate_id(config.entries_len);
    let e = build_entry(config, data, fresh, now);
    Ok(e)
}

/// A submission `id=custom` (with no `&` or `=` in `custom`) gives an entry
/// keyed by `custom` where no entry has that identifier yet, and one keyed by
/// the generated identifier where one has.
pub proof fn lemma_custom_id(custom: Seq<char>, taken: Set<Seq<char>>, fresh: Seq<char>, now: u64)
    requires
        custom.len() > 0,
        forall|i: int| 0 <= i < custom.len() ==> custom[i] != '&' && custom[i] != '=',
    ensures
        !taken.contains(custom) ==> entry_of(id_key() + seq!['='] + custom, taken, fresh, now).id == custom,
        taken.contains(custom) ==> entry_of(id_key() + seq!['='] + custom, taken, fresh, now).id == fresh,
{
    reveal(apply_field);
    let data = id_key() + seq!['='] + custom;
    assert(data.len() == custom.len() + 3);
    assert forall|j: int| 0 <= j < data.len() implies data[j] != '&' by {
        if j >= 3 {
            assert(data[j] == custom[j - 3]);
        }
    }
    lemma_first_index(data, '&', data.len() as int);
    assert(data.subrange(0, data.len() as int) =~= data);
    assert forall|j: int| 0 <= j < 2 implies data[j] != '=' by {}
    lemma_first_index(data, '=', 2);
    assert(data.subrange(0, 2) =~= id_key());
    let rest = data.subrange(3, data.len() as int);
    assert(rest =~= custom);
    lemma_first_index(custom, '=', custom.len() as int);
    assert(custom.subrange(0, custom.len() as int) =~= custom);
    assert(field_key(data) == id_key());
    assert(field_value(data) == custom);
}

} // verus!
