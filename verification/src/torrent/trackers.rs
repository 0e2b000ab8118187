//! The tracker list: sites that traders use, what has become of them, and the user's own
//! list on top.
//!
//! A list with no date asks to be trusted; a list with a date asks to be checked. So every
//! entry that is shipped carries the date it was last checked and what was seen.

use crate::error::Error;
use crate::text;
use crate::text::{
    chars_of, debug_of, find_first, has_text, join_strings, lines_of, lower_char, push_decimal,
    replace_text, same, slice_of, split_at_char, trim_string, utf8_of,
};
use vstd::prelude::*;
use vstd::string::*;

verus! {

/// The user's own list, one `Name|URL` to a line.
pub const TRACKER_LIST_FILE: &'static str = "trackers.lst";

/// `id|passkey`, one to a line: the same shape as the tracker list.
pub const PASSKEY_FILE: &'static str = "passkeys.lst";

/// What an announce URL carries where the site issues a key to each user.
pub const PASSKEY_PLACEHOLDER: &'static str = "{passkey}";

/// The date that the shipped entries were last checked.
pub const CHECKED: &'static str = "2026-08-30";

/// What is known about an entry, and therefore whether its URL may be written into a
/// torrent. An announce URL that cannot work is worse than no tracker at all, because the
/// user finds out only when nobody ever connects.
#[derive(Debug, Clone, Copy, PartialEq, Eq, Structural)]
pub enum Health {
    /// It answered as a tracker.
    Announces,
    /// It answered as a tracker, but only a personal announce URL will authorize.
    PersonalUrl,
    /// This URL cannot work. The site may well still exist somewhere else; the URL is what
    /// is broken.
    Broken,
    /// Nothing answered. Not evidence that it is gone: a firewall in between looks exactly
    /// like this. Usable, with a warning.
    Unreachable,
    /// A user's own entry, never checked, and used exactly as given.
    Unchecked,
}

impl Health {
    pub open spec fn label_text(self) -> Seq<char> {
        match self {
            Health::Announces => "announces"@,
            Health::PersonalUrl => "personal URL needed"@,
            Health::Broken => "broken"@,
            Health::Unreachable => "unreachable"@,
            Health::Unchecked => "unchecked"@,
        }
    }

    pub fn label(self) -> (s: &'static str)
        ensures
            s@ == self.label_text(),
    {
        match self {
            Health::Announces => "announces",
            Health::PersonalUrl => "personal URL needed",
            Health::Broken => "broken",
            Health::Unreachable => "unreachable",
            Health::Unchecked => "unchecked",
        }
    }

    pub open spec fn may_be_used(self) -> bool {
        !(self is PersonalUrl) && !(self is Broken)
    }

    /// Whether this entry's URL may be written into a torrent. One that needs a personal URL
    /// answered when it was checked, and is listed for that, but the URL that is listed
    /// authorizes nobody: it is not usable as it stands, and not counted as usable.
    pub fn usable(self) -> (b: bool)
        ensures
            b == self.may_be_used(),
    {
        match self {
            Health::PersonalUrl => false,
            Health::Broken => false,
            _ => true,
        }
    }

    /// Whether it answered as a tracker when it was checked.
    pub fn responds(self) -> (b: bool)
        ensures
            b == (self is Announces || self is PersonalUrl),
    {
        match self {
            Health::Announces => true,
            Health::PersonalUrl => true,
            _ => false,
        }
    }
}

/// Where an entry came from.
#[derive(Debug, Clone, Copy, PartialEq, Eq, Structural)]
pub enum Origin {
    Bundled,
    /// From the user's own list.
    User,
    /// An entry that the user's list replaced by id.
    Overridden,
}

#[derive(Debug, Clone, PartialEq, Eq)]
pub struct Tracker {
    /// What a user calls it by.
    pub id: String,
    pub name: String,
    /// May hold [`PASSKEY_PLACEHOLDER`].
    pub announce: String,
    /// Makes torrents private, which changes the infohash.
    pub private: bool,
    /// Some private sites require a source to make the infohash theirs.
    pub source: Option<String>,
    pub health: Health,
    /// The date it was last checked, if ever.
    pub checked: Option<String>,
    /// What was seen then: the tracker's own words wherever it spoke.
    pub evidence: Option<String>,
    pub origin: Origin,
}

/// What an entry says.
pub struct Entry {
    pub id: Seq<char>,
    pub name: Seq<char>,
    pub announce: Seq<char>,
    pub private: bool,
    pub source: Option<Seq<char>>,
    pub health: Health,
    pub checked: Option<Seq<char>>,
    pub evidence: Option<Seq<char>>,
    pub origin: Origin,
}

pub open spec fn opt(o: Option<String>) -> Option<Seq<char>> {
    match o {
        Some(s) => Some(s@),
        None => None,
    }
}

impl View for Tracker {
    type V = Entry;

    open spec fn view(&self) -> Entry {
        Entry {
            id: self.id@,
            name: self.name@,
            announce: self.announce@,
            private: self.private,
            source: opt(self.source),
            health: self.health,
            checked: opt(self.checked),
            evidence: opt(self.evidence),
            origin: self.origin,
        }
    }
}

pub open spec fn entries(list: Seq<Tracker>) -> Seq<Entry> {
    list.map_values(|t: Tracker| t@)
}

fn copy_opt(o: &Option<String>) -> (r: Option<String>)
    ensures
        opt(r) == opt(*o),
{
    match o {
        Some(s) => Some(s.clone()),
        None => None,
    }
}

fn copy_tracker(t: &Tracker) -> (r: Tracker)
    ensures
        r@ == t@,
{
    Tracker {
        id: t.id.clone(),
        name: t.name.clone(),
        announce: t.announce.clone(),
        private: t.private,
        source: copy_opt(&t.source),
        health: t.health,
        checked: copy_opt(&t.checked),
        evidence: copy_opt(&t.evidence),
        origin: t.origin,
    }
}

/// What is known about an entry, in one parenthesis. Never just a status: a status with no
/// date lets a list recommend a dead tracker for years.
pub fn confirmation(t: &Tracker) -> (s: String)
    ensures
        s@ == match t@.checked {
            Some(d) => t.health.label_text() + " — checked "@ + d,
            None => t.health.label_text() + " — from your own list"@,
        },
{
    let mut s = t.health.label().to_owned();
    match &t.checked {
        Some(d) => {
            s.append(" — checked ");
            s.append(d);
        },
        None => {
            s.append(" — from your own list");
        },
    }
    s
}

/// What an entry's URL asks for a passkey in.
pub open spec fn asks_passkey(announce: Seq<char>) -> bool {
    text::occurs(announce, PASSKEY_PLACEHOLDER@)
}

pub open spec fn no_passkey(e: Entry, file: Seq<char>) -> Seq<char> {
    e.name + " issues a personal announce key and none is configured; put `"@ + e.id
        + "|<your key>` in "@ + file
}

/// An entry's URL, the passkey filled in.
pub open spec fn filled(e: Entry, keys: Map<Seq<char>, Seq<char>>) -> Option<Seq<char>> {
    if !asks_passkey(e.announce) {
        Some(e.announce)
    } else if keys.dom().contains(e.id) {
        Some(text::replaced(e.announce, PASSKEY_PLACEHOLDER@, keys[e.id], 0))
    } else {
        None
    }
}

fn unusable(id: &str, detail: &str) -> (e: Error)
    ensures
        is_unusable(e, id@, detail@),
{
    Error::UnusableTracker { id: id.to_owned(), detail: detail.to_owned() }
}

pub open spec fn is_unusable(e: Error, i: Seq<char>, d: Seq<char>) -> bool {
    e matches Error::UnusableTracker { id, detail } && id@ == i && detail@ == d
}

impl Tracker {
    pub fn needs_passkey(&self) -> (b: bool)
        ensures
            b == asks_passkey(self.announce@),
    {
        has_text(&self.announce, PASSKEY_PLACEHOLDER)
    }

    /// The announce URL with the passkey filled in, or an error that names the file that the
    /// key should have come from. A torrent with an unfilled passkey is never written.
    pub fn announce_url(&self, keys: &Passkeys, file: &str) -> (r: Result<String, Error>)
        ensures
            match r {
                Ok(url) => filled(self@, keys@) == Some(url@),
                Err(e) => filled(self@, keys@) is None && is_unusable(
                    e,
                    self.id@,
                    no_passkey(self@, file@),
                ),
            },
    {
        if !self.needs_passkey() {
            return Ok(self.announce.clone());
        }
        match keys.get(&self.id) {
            Some(key) => {
                proof {
                    reveal_strlit("{passkey}");
                }
                Ok(replace_text(&self.announce, PASSKEY_PLACEHOLDER, key))
            },
            None => {
                let mut d = self.name.clone();
                d.append(" issues a personal announce key and none is configured; put `");
                d.append(&self.id);
                d.append("|<your key>` in ");
                d.append(file);
                Err(unusable(&self.id, &d))
            },
        }
    }
}

// The shipped list.

/// An entry as it is shipped. None is marked private, and none asks for a passkey: there is
/// no evidence for either, and guessing privacy wrong would silently change the infohash of
/// every torrent made for that site.
pub open spec fn shipped(
    id: Seq<char>,
    name: Seq<char>,
    announce: Seq<char>,
    health: Health,
    evidence: Seq<char>,
) -> Entry {
    Entry {
        id,
        name,
        announce,
        private: false,
        source: None,
        health,
        checked: Some(CHECKED@),
        evidence: Some(evidence),
        origin: Origin::Bundled,
    }
}

fn shipped_entry(
    id: &str,
    name: &str,
    announce: &str,
    health: Health,
    evidence: &str,
) -> (t: Tracker)
    ensures
        t@ == shipped(id@, name@, announce@, health, evidence@),
{
    Tracker {
        id: id.to_owned(),
        name: name.to_owned(),
        announce: announce.to_owned(),
        private: false,
        source: None,
        health,
        checked: Some(CHECKED.to_owned()),
        evidence: Some(evidence.to_owned()),
        origin: Origin::Bundled,
    }
}

/// The entries that are shipped, dated and with what was seen.
pub open spec fn shipped_list() -> Seq<Entry> {
    seq![
        shipped(
            "crosstown"@,
            "Crosstown Torrents"@,
            "http://crosstowntorrents.org:5555/announce"@,
            Health::Unreachable,
            "the host resolves but nothing answered on port 5555"@,
        ),
        shipped(
            "dime"@,
            "DIME"@,
            "http://bt.dimeadozen.org/announce.php"@,
            Health::PersonalUrl,
            "answered: \"not authorized; download a new copy of the .torrent file from the tracker\""@,
        ),
        shipped(
            "etree"@,
            "etree.org"@,
            "http://tracker.etree.org:6969/announce"@,
            Health::PersonalUrl,
            "answered: \"Missing Key.\""@,
        ),
        shipped(
            "genesis"@,
            "Genesis-Movement Torrent"@,
            "http://torrent.genesis-movement.org/announce.php"@,
            Health::Announces,
            "answered as a tracker: \"Invalid info hash value.\""@,
        ),
        shipped(
            "jamtothis"@,
            "JamToThis"@,
            "http://www.jamtothis.com:2710/announce"@,
            Health::Unreachable,
            "the host resolves but nothing answered on port 2710"@,
        ),
        shipped(
            "losslesslegs"@,
            "Lossless Legs"@,
            "http://www.shnflac.net/announce.php"@,
            Health::Broken,
            "port 80 refuses connections; the site answers on 443 but not as a tracker"@,
        ),
        shipped(
            "mindwarp"@,
            "Mind-Warp PaVilion"@,
            "http://www.mindwarppavilion.org/ezt/announce.php"@,
            Health::Broken,
            "redirects to the site root and returns a web page, not a tracker response"@,
        ),
        shipped(
            "tradersden"@,
            "The Traders' Den"@,
            "http://www.thetradersden.org/forums/tracker/announce.php"@,
            Health::Announces,
            "answered as a tracker: \"Invalid info_hash (0 - )\""@,
        ),
        shipped(
            "yeeshkul"@,
            "YEESHKUL!"@,
            "http://www.yeeshkul.com:2710/announce"@,
            Health::Unreachable,
            "the host resolves but nothing answered on port 2710"@,
        ),
        shipped(
            "zappateers"@,
            "Zappateers"@,
            "http://www.zappateers.com/bb/"@,
            Health::Broken,
            "a static page reading \"Zappateers is currently off-line for a major overhaul\", dated 2020-08-18; TLH shipped a forum root here, never an announce URL"@,
        ),
        shipped(
            "zomb"@,
            "ZOMB Torrents"@,
            "http://t1.the-zomb.com/announce.php"@,
            Health::Broken,
            "no DNS A record"@,
        ),
    ]
}

/// The shipped list, and whatever the user's own list adds to it or replaces in it.
#[derive(Debug, Clone)]
pub struct TrackerList {
    pub entries: Vec<Tracker>,
    /// The user's list, if there is a place for one.
    pub user_list: Option<String>,
}

impl View for TrackerList {
    type V = Seq<Entry>;

    open spec fn view(&self) -> Seq<Entry> {
        entries(self.entries@)
    }
}

/// The entries that can still be chosen: all that were not replaced.
pub open spec fn current(list: Seq<Entry>) -> Seq<Entry>
    decreases list.len(),
{
    if list.len() == 0 {
        Seq::empty()
    } else if list.last().origin is Overridden {
        current(list.drop_last())
    } else {
        current(list.drop_last()).push(list.last())
    }
}

/// The first entry that can be chosen by this id.
pub open spec fn found(list: Seq<Entry>, id: Seq<char>) -> Option<Entry>
    decreases list.len(),
{
    if list.len() == 0 {
        None
    } else if !(list[0].origin is Overridden) && list[0].id == id {
        Some(list[0])
    } else {
        found(list.drop_first(), id)
    }
}

/// Where the first entry of this id stands, replaced or not.
pub open spec fn position(list: Seq<Entry>, id: Seq<char>, i: int) -> int
    decreases list.len() - i,
{
    if i < 0 || i >= list.len() || list[i].id == id {
        i
    } else {
        position(list, id, i + 1)
    }
}

/// An entry as one that was replaced.
pub open spec fn replaced_entry(e: Entry) -> Entry {
    Entry {
        id: e.id,
        name: e.name,
        announce: e.announce,
        private: e.private,
        source: e.source,
        health: e.health,
        checked: e.checked,
        evidence: e.evidence,
        origin: Origin::Overridden,
    }
}

/// A list with one entry put in: before the one whose id it has, which stays visible as
/// replaced, or at the end.
pub open spec fn with_entry(list: Seq<Entry>, e: Entry) -> Seq<Entry> {
    let i = position(list, e.id, 0);
    if i < list.len() {
        list.update(i, replaced_entry(list[i])).insert(i, e)
    } else {
        list.push(e)
    }
}

/// A list with entries put in, one after the other.
pub open spec fn with_entries(list: Seq<Entry>, new: Seq<Entry>) -> Seq<Entry>
    decreases new.len(),
{
    if new.len() == 0 {
        list
    } else {
        with_entry(with_entries(list, new.drop_last()), new.last())
    }
}

impl TrackerList {
    /// Just the entries that are shipped.
    pub fn bundled() -> (l: TrackerList)
        ensures
            l@ == shipped_list(),
            l.user_list is None,
    {
        let mut entries: Vec<Tracker> = Vec::new();
        entries.push(
            shipped_entry(
                "crosstown",
                "Crosstown Torrents",
                "http://crosstowntorrents.org:5555/announce",
                Health::Unreachable,
                "the host resolves but nothing answered on port 5555",
            ),
        );
        entries.push(
            shipped_entry(
                "dime",
                "DIME",
                "http://bt.dimeadozen.org/announce.php",
                Health::PersonalUrl,
                "answered: \"not authorized; download a new copy of the .torrent file from the tracker\"",
            ),
        );
        entries.push(
            shipped_entry(
                "etree",
                "etree.org",
                "http://tracker.etree.org:6969/announce",
                Health::PersonalUrl,
                "answered: \"Missing Key.\"",
            ),
        );
        entries.push(
            shipped_entry(
                "genesis",
                "Genesis-Movement Torrent",
                "http://torrent.genesis-movement.org/announce.php",
                Health::Announces,
                "answered as a tracker: \"Invalid info hash value.\"",
            ),
        );
        entries.push(
            shipped_entry(
                "jamtothis",
                "JamToThis",
                "http://www.jamtothis.com:2710/announce",
                Health::Unreachable,
                "the host resolves but nothing answered on port 2710",
            ),
        );
        entries.push(
            shipped_entry(
                "losslesslegs",
                "Lossless Legs",
                "http://www.shnflac.net/announce.php",
                Health::Broken,
                "port 80 refuses connections; the site answers on 443 but not as a tracker",
            ),
        );
        entries.push(
            shipped_entry(
                "mindwarp",
                "Mind-Warp PaVilion",
                "http://www.mindwarppavilion.org/ezt/announce.php",
                Health::Broken,
                "redirects to the site root and returns a web page, not a tracker response",
            ),
        );
        entries.push(
            shipped_entry(
                "tradersden",
                "The Traders' Den",
                "http://www.thetradersden.org/forums/tracker/announce.php",
                Health::Announces,
                "answered as a tracker: \"Invalid info_hash (0 - )\"",
            ),
        );
        entries.push(
            shipped_entry(
                "yeeshkul",
                "YEESHKUL!",
                "http://www.yeeshkul.com:2710/announce",
                Health::Unreachable,
                "the host resolves but nothing answered on port 2710",
            ),
        );
        entries.push(
            shipped_entry(
                "zappateers",
                "Zappateers",
                "http://www.zappateers.com/bb/",
                Health::Broken,
                "a static page reading \"Zappateers is currently off-line for a major overhaul\", dated 2020-08-18; TLH shipped a forum root here, never an announce URL",
            ),
        );
        entries.push(
            shipped_entry(
                "zomb",
                "ZOMB Torrents",
                "http://t1.the-zomb.com/announce.php",
                Health::Broken,
                "no DNS A record",
            ),
        );
        let l = TrackerList { entries, user_list: None };
        assert(l@ =~= shipped_list());
        l
    }

    /// Merges a `Name|URL` list over this one. An entry whose id is there already replaces
    /// it; the others are appended, in order.
    pub fn merge(&mut self, data: &[u8], path: &str) -> (r: Result<(), Error>)
        ensures
            match r {
                Ok(_) => list_fault(data@) is None && final(self)@ == with_entries(
                    old(self)@,
                    list_of(data@),
                ),
                Err(e) => *final(self) == *old(self) && (list_fault(data@) matches Some(d)
                    && e.is_malformed(path@, d)),
            },
            final(self).user_list == old(self).user_list,
    {
        let new = parse_list(data, path)?;
        let ghost before = self@;
        let ghost all = entries(new@);
        let mut rest = new;
        let n: usize = rest.len();
        let mut k: usize = 0;
        assert(all.take(0) =~= Seq::<Entry>::empty());
        while k < n
            invariant
                k <= n,
                all.len() == n,
                rest.len() == n - k,
                forall|j: int| 0 <= j < rest.len() ==> (#[trigger] rest@[j])@ == all[k + j],
                entries(self.entries@) == with_entries(before, all.take(k as int)),
                self.user_list == old(self).user_list,
            decreases n - k,
        {
            assert(rest@[0]@ == all[k + 0]);
            let e = rest.remove(0);
            let ghost list = entries(self.entries@);
            let i = index_in(&self.entries, &e.id);
            proof {
                assert(all.take(k + 1).drop_last() =~= all.take(k as int));
                assert(all.take(k + 1).last() == e@);
            }
            if i < self.entries.len() {
                let old_entry = self.entries.remove(i);
                let gone = Tracker {
                    id: old_entry.id,
                    name: old_entry.name,
                    announce: old_entry.announce,
                    private: old_entry.private,
                    source: old_entry.source,
                    health: old_entry.health,
                    checked: old_entry.checked,
                    evidence: old_entry.evidence,
                    origin: Origin::Overridden,
                };
                self.entries.insert(i, gone);
                let ghost marked = entries(self.entries@);
                assert(marked =~= list.update(i as int, replaced_entry(list[i as int])));
                let ghost v = e@;
                self.entries.insert(i, e);
                assert(entries(self.entries@) =~= marked.insert(i as int, v));
            } else {
                let ghost v = e@;
                self.entries.push(e);
                assert(entries(self.entries@) =~= list.push(v));
            }
            k += 1;
        }
        assert(all.take(n as int) =~= all);
        Ok(())
    }

    /// The entries that can still be chosen.
    pub fn iter(&self) -> (r: Vec<&Tracker>)
        ensures
            r@.map_values(|t: &Tracker| t@) == current(self@),
    {
        let ghost list = entries(self.entries@);
        let mut r: Vec<&Tracker> = Vec::new();
        let mut i: usize = 0;
        assert(list.take(0) =~= Seq::<Entry>::empty());
        assert(r@.map_values(|t: &Tracker| t@) =~= current(list.take(0)));
        while i < self.entries.len()
            invariant
                i <= self.entries.len(),
                list == entries(self.entries@),
                r@.map_values(|t: &Tracker| t@) == current(list.take(i as int)),
            decreases self.entries.len() - i,
        {
            assert(list.take(i + 1).drop_last() =~= list.take(i as int));
            assert(list.take(i + 1).last() == self.entries@[i as int]@);
            if self.entries[i].origin != Origin::Overridden {
                let ghost had = r@;
                r.push(&self.entries[i]);
                assert(r@.map_values(|t: &Tracker| t@) =~= had.map_values(
                    |t: &Tracker| t@,
                ).push(self.entries@[i as int]@));
            }
            i += 1;
        }
        assert(list.take(list.len() as int) =~= list);
        r
    }

    /// Every entry, replaced ones included.
    pub fn all(&self) -> (r: &Vec<Tracker>)
        ensures
            entries(r@) == self@,
    {
        &self.entries
    }

    pub fn get(&self, id: &str) -> (r: Option<&Tracker>)
        ensures
            match r {
                Some(t) => found(self@, id@) == Some(t@),
                None => found(self@, id@) is None,
            },
    {
        let ghost list = entries(self.entries@);
        let mut i: usize = 0;
        assert(list.skip(0) =~= list);
        while i < self.entries.len()
            invariant
                i <= self.entries.len(),
                list == entries(self.entries@),
                found(list, id@) == found(list.skip(i as int), id@),
            decreases self.entries.len() - i,
        {
            let t = &self.entries[i];
            assert(list.skip(i as int)[0] == t@);
            assert(list.skip(i as int).drop_first() =~= list.skip(i + 1));
            if t.origin != Origin::Overridden && same(&t.id, id) {
                return Some(t);
            }
            i += 1;
        }
        None
    }

    /// The ids that there are, for whoever asked for one that there is not.
    pub fn ids(&self) -> (s: String)
        ensures
            s@ == ids_text(self@),
    {
        let ts = self.iter();
        let ghost list = current(self@);
        let mut ids: Vec<String> = Vec::new();
        let mut i: usize = 0;
        while i < ts.len()
            invariant
                i <= ts.len(),
                ids.len() == i,
                forall|k: int| 0 <= k < i ==> (#[trigger] ids@[k])@ == ts@[k].id@,
            decreases ts.len() - i,
        {
            ids.push(ts[i].id.clone());
            i += 1;
        }
        proof {
            let want = list.map_values(|e: Entry| e.id);
            assert(text::views(ids@) =~= want) by {
                assert forall|k: int| 0 <= k < want.len() implies text::views(ids@)[k]
                    == want[k] by {
                    assert(ts@.map_values(|t: &Tracker| t@)[k] == ts@[k]@);
                }
            }
        }
        join_strings(&ids, ", ")
    }
}

pub open spec fn ids_text(list: Seq<Entry>) -> Seq<char> {
    text::join(current(list).map_values(|e: Entry| e.id), ", "@)
}

// The user's list.

pub open spec fn is_ascii_word(c: char) -> bool {
    ('a' <= c && c <= 'z') || ('A' <= c && c <= 'Z') || ('0' <= c && c <= '9')
}

/// An id from a display name: ASCII letters and digits only, in lower case.
pub open spec fn slug(name: Seq<char>) -> Seq<char>
    decreases name.len(),
{
    if name.len() == 0 {
        Seq::empty()
    } else if is_ascii_word(name.last()) {
        slug(name.drop_last()).push(text::lower(name.last()))
    } else {
        slug(name.drop_last())
    }
}

fn slug_of(name: &str) -> (s: String)
    ensures
        s@ == slug(name@),
{
    let v = chars_of(name);
    let mut s = String::new();
    let mut i: usize = 0;
    assert(v@.take(0) =~= Seq::<char>::empty());
    while i < v.len()
        invariant
            i <= v.len(),
            s@ == slug(v@.take(i as int)),
        decreases v.len() - i,
    {
        let c = v[i];
        assert(v@.take(i + 1).drop_last() =~= v@.take(i as int));
        if ('a' <= c && c <= 'z') || ('A' <= c && c <= 'Z') || ('0' <= c && c <= '9') {
            s.push(lower_char(c));
        }
        i += 1;
    }
    assert(v@.take(v.len() as int) =~= v@);
    s
}

/// A line that says nothing: empty, or a comment.
pub open spec fn is_blank(line: Seq<char>) -> bool {
    line.len() == 0 || line[0] == '#'
}

/// What one of the fields after the URL says.
pub open spec fn with_field(e: Entry, field: Seq<char>) -> Result<Entry, Seq<char>> {
    let f = text::trim(field);
    let i = text::first_at(f, '=');
    if i < f.len() {
        let key = f.take(i);
        let value = text::trim(f.skip(i + 1));
        if key == "id"@ {
            Ok(user_entry(value, e.name, e.announce, e.private, e.source))
        } else if key == "source"@ {
            Ok(user_entry(e.id, e.name, e.announce, e.private, Some(value)))
        } else {
            Err("unknown field "@ + text::debug_text(key))
        }
    } else if f == "private"@ {
        Ok(user_entry(e.id, e.name, e.announce, true, e.source))
    } else if f.len() == 0 {
        Ok(e)
    } else {
        Err("unknown field "@ + text::debug_text(f))
    }
}

/// What the fields from `k` on say.
pub open spec fn with_fields(e: Entry, fields: Seq<Seq<char>>, k: int) -> Result<Entry, Seq<char>>
    decreases fields.len() - k,
{
    if k < 0 || k >= fields.len() {
        Ok(e)
    } else {
        match with_field(e, fields[k]) {
            Ok(next) => with_fields(next, fields, k + 1),
            Err(d) => Err(d),
        }
    }
}

/// An entry of the user's own.
pub open spec fn user_entry(
    id: Seq<char>,
    name: Seq<char>,
    announce: Seq<char>,
    private: bool,
    source: Option<Seq<char>>,
) -> Entry {
    Entry {
        id,
        name,
        announce,
        private,
        source,
        health: Health::Unchecked,
        checked: None,
        evidence: None,
        origin: Origin::User,
    }
}

/// What one line of a list says.
pub open spec fn line_entry(line: Seq<char>) -> Result<Entry, Seq<char>> {
    let fields = text::split_on(line, '|');
    let name = text::trim(fields[0]);
    let announce = text::trim(fields[1]);
    if fields.len() < 2 {
        Err(
            text::debug_text(line)
                + " has no `|`; the format is `Display Name|announce URL`"@,
        )
    } else if name.len() == 0 {
        Err("the entry has no name"@)
    } else if announce.len() == 0 {
        Err(text::debug_text(name) + " has no announce URL"@)
    } else {
        match with_fields(user_entry(slug(name), name, announce, false, None), fields, 2) {
            Err(d) => Err(d),
            Ok(e) => if e.id.len() == 0 {
                Err(text::debug_text(name) + " gives no id and none can be made from it"@)
            } else {
                Ok(e)
            },
        }
    }
}

/// Where an entry of this id stands.
pub open spec fn taken(list: Seq<Entry>, id: Seq<char>) -> int {
    position(list, id, 0)
}

/// What the lines from `k` on add to a list: its entries, or the first line that is wrong
/// and what is wrong with it.
pub open spec fn lines_entries(lines: Seq<Seq<char>>, k: int, list: Seq<Entry>) -> Result<
    Seq<Entry>,
    (int, Seq<char>),
>
    decreases lines.len() - k,
{
    if k < 0 || k >= lines.len() {
        Ok(list)
    } else {
        let line = text::trim(lines[k]);
        if is_blank(line) {
            lines_entries(lines, k + 1, list)
        } else {
            match line_entry(line) {
                Err(d) => Err((k, d)),
                Ok(e) => {
                    let i = taken(list, e.id);
                    if i < list.len() {
                        Err(
                            (
                                k,
                                "id "@ + text::debug_text(e.id) + " is already used by "@
                                    + text::debug_text(list[i].name)
                                    + "; give one of them an `id=` field"@,
                            ),
                        )
                    } else {
                        lines_entries(lines, k + 1, list.push(e))
                    }
                },
            }
        }
    }
}

pub open spec fn not_utf8(data: Seq<u8>) -> Seq<char> {
    "not valid UTF-8: "@ + text::utf8_fault(data)
}

/// What a list says.
pub open spec fn list_entries(data: Seq<u8>) -> Result<Seq<Entry>, (int, Seq<char>)> {
    lines_entries(text::lines(vstd::utf8::decode_utf8(data)), 0, Seq::empty())
}

pub open spec fn at_line(k: int, detail: Seq<char>) -> Seq<char> {
    "line "@ + text::decimal((k + 1) as nat) + ": "@ + detail
}

/// What is wrong with a list.
pub open spec fn list_fault(data: Seq<u8>) -> Option<Seq<char>> {
    if !vstd::utf8::valid_utf8(data) {
        Some(not_utf8(data))
    } else {
        match list_entries(data) {
            Ok(_) => None,
            Err((k, d)) => Some(at_line(k, d)),
        }
    }
}

/// The entries of a list.
pub open spec fn list_of(data: Seq<u8>) -> Seq<Entry> {
    list_entries(data)->Ok_0
}

fn line_error(path: &str, k: usize, detail: &str) -> (e: Error)
    requires
        k < usize::MAX,
    ensures
        e.is_malformed(path@, at_line(k as int, detail@)),
{
    let mut d = "line ".to_owned();
    push_decimal(&mut d, k as u64 + 1);
    d.append(": ");
    d.append(detail);
    Error::malformed(path, &d)
}

fn read_line(line: &str) -> (r: Result<Tracker, String>)
    ensures
        match r {
            Ok(t) => line_entry(line@) == Ok::<Entry, Seq<char>>(t@),
            Err(d) => line_entry(line@) == Err::<Entry, Seq<char>>(d@),
        },
{
    let v = chars_of(line);
    let fields = split_at_char(&v, '|');
    let ghost all = text::split_on(line@, '|');
    if fields.len() < 2 {
        let mut d = debug_of(line);
        d.append(" has no `|`; the format is `Display Name|announce URL`");
        assert(all.len() < 2);
        return Err(d);
    }
    assert(all[0] == fields@[0]@ && all[1] == fields@[1]@);
    let name = trim_string(&fields[0]);
    let announce = trim_string(&fields[1]);
    if name.as_str().is_empty() {
        return Err("the entry has no name".to_owned());
    }
    if announce.as_str().is_empty() {
        let mut d = debug_of(&name);
        d.append(" has no announce URL");
        return Err(d);
    }
    let mut t = Tracker {
        id: slug_of(&name),
        name: name.clone(),
        announce,
        private: false,
        source: None,
        health: Health::Unchecked,
        checked: None,
        evidence: None,
        origin: Origin::User,
    };
    let ghost first = t@;
    let mut k: usize = 2;
    while k < fields.len()
        invariant
            2 <= k <= fields.len(),
            all == text::views(fields@),
            all == text::split_on(line@, '|'),
            name@ == text::trim(all[0]),
            name@.len() > 0,
            text::trim(all[1]).len() > 0,
            first == user_entry(slug(name@), name@, text::trim(all[1]), false, None),
            t.health is Unchecked,
            t.checked is None,
            t.evidence is None,
            t.origin is User,
            with_fields(first, all, 2) == with_fields(t@, all, k as int),
        decreases fields.len() - k,
    {
        let ghost before = t@;
        assert(all[k as int] == fields@[k as int]@);
        let field = trim_string(&fields[k]);
        let f = chars_of(&field);
        let i: usize = find_first(&f, '=');
        proof {
            text::lemma_first_at(f@, '=');
        }
        if i < f.len() {
            let key = slice_of(&f, 0, i);
            let value = trim_string(&slice_of(&f, i + 1, f.len()));
            proof {
                assert(key@ =~= f@.take(i as int));
                assert(f@.subrange(i + 1, f@.len() as int) =~= f@.skip(i + 1));
            }
            if same(&key, "id") {
                t.id = value;
            } else if same(&key, "source") {
                t.source = Some(value);
            } else {
                let mut d = "unknown field ".to_owned();
                d.append(&debug_of(&key));
                return Err(d);
            }
        } else if same(&field, "private") {
            t.private = true;
        } else if !field.as_str().is_empty() {
            let mut d = "unknown field ".to_owned();
            d.append(&debug_of(&field));
            return Err(d);
        }
        assert(with_field(before, all[k as int]) == Ok::<Entry, Seq<char>>(t@));
        k += 1;
    }
    if t.id.as_str().is_empty() {
        let mut d = debug_of(&name);
        d.append(" gives no id and none can be made from it");
        return Err(d);
    }
    Ok(t)
}

fn index_in(list: &Vec<Tracker>, id: &str) -> (i: usize)
    ensures
        i == position(entries(list@), id@, 0),
        i <= list.len(),
{
    let ghost all = entries(list@);
    let mut i: usize = 0;
    while i < list.len()
        invariant
            i <= list.len(),
            all == entries(list@),
            position(all, id@, 0) == position(all, id@, i as int),
        decreases list.len() - i,
    {
        assert(all[i as int] == list@[i as int]@);
        if same(&list[i].id, id) {
            return i;
        }
        i += 1;
    }
    i
}

/// Reads a list, one `Display Name|announce URL` to a line. What follows the URL is ours:
/// `private`, `source=TAG`, `id=SLUG`. `#` starts a comment.
pub fn parse_list(data: &[u8], path: &str) -> (r: Result<Vec<Tracker>, Error>)
    ensures
        match r {
            Ok(l) => list_fault(data@) is None && entries(l@) == list_of(data@),
            Err(e) => list_fault(data@) matches Some(d) && e.is_malformed(path@, d),
        },
{
    let s = match utf8_of(data) {
        Ok(s) => s,
        Err(said) => {
            let mut d = "not valid UTF-8: ".to_owned();
            d.append(&said);
            return Err(Error::malformed(path, &d));
        },
    };
    let lines = lines_of(&s);
    let ghost all = text::views(lines@);
    let mut out: Vec<Tracker> = Vec::new();
    let mut k: usize = 0;
    assert(entries(out@) =~= Seq::<Entry>::empty());
    while k < lines.len()
        invariant
            k <= lines.len(),
            all == text::views(lines@),
            vstd::utf8::valid_utf8(data@),
            all == text::lines(vstd::utf8::decode_utf8(data@)),
            list_entries(data@) == lines_entries(all, k as int, entries(out@)),
        decreases lines.len() - k,
    {
        assert(all[k as int] == lines@[k as int]@);
        let line = trim_string(&lines[k]);
        let v = chars_of(&line);
        if v.len() == 0 || v[0] == '#' {
            k += 1;
            continue;
        }
        let t = match read_line(&line) {
            Ok(t) => t,
            Err(d) => {
                return Err(line_error(path, k, &d));
            },
        };
        let i = index_in(&out, &t.id);
        if i < out.len() {
            assert(entries(out@)[i as int] == out@[i as int]@);
            let mut d = "id ".to_owned();
            d.append(&debug_of(&t.id));
            d.append(" is already used by ");
            d.append(&debug_of(&out[i].name));
            d.append("; give one of them an `id=` field");
            return Err(line_error(path, k, &d));
        }
        let ghost had = entries(out@);
        let ghost e = t@;
        out.push(t);
        assert(entries(out@) =~= had.push(e));
        k += 1;
    }
    Ok(out)
}

// Passkeys.

/// Announce keys, by tracker.
#[derive(Debug, Clone)]
pub struct Passkeys {
    pub keys: Vec<(String, String)>,
    pub path: Option<String>,
}

/// Keys, the last one given for a tracker standing for it.
pub open spec fn key_map(pairs: Seq<(Seq<char>, Seq<char>)>) -> Map<Seq<char>, Seq<char>>
    decreases pairs.len(),
{
    if pairs.len() == 0 {
        Map::empty()
    } else {
        key_map(pairs.drop_last()).insert(pairs.last().0, pairs.last().1)
    }
}

pub open spec fn pair_views(keys: Seq<(String, String)>) -> Seq<(Seq<char>, Seq<char>)> {
    keys.map_values(|p: (String, String)| (p.0@, p.1@))
}

impl View for Passkeys {
    type V = Map<Seq<char>, Seq<char>>;

    open spec fn view(&self) -> Map<Seq<char>, Seq<char>> {
        key_map(pair_views(self.keys@))
    }
}

/// What the lines from `k` on add to the keys.
pub open spec fn lines_keys(
    lines: Seq<Seq<char>>,
    k: int,
    keys: Map<Seq<char>, Seq<char>>,
) -> Result<Map<Seq<char>, Seq<char>>, (int, Seq<char>)>
    decreases lines.len() - k,
{
    if k < 0 || k >= lines.len() {
        Ok(keys)
    } else {
        let line = text::trim(lines[k]);
        let i = text::first_at(line, '|');
        if is_blank(line) {
            lines_keys(lines, k + 1, keys)
        } else if i >= line.len() {
            Err((k, text::debug_text(line) + " is not `tracker id|passkey`"@))
        } else {
            lines_keys(
                lines,
                k + 1,
                keys.insert(text::trim(line.take(i)), text::trim(line.skip(i + 1))),
            )
        }
    }
}

pub open spec fn keys_of(data: Seq<u8>) -> Result<Map<Seq<char>, Seq<char>>, (int, Seq<char>)> {
    lines_keys(text::lines(vstd::utf8::decode_utf8(data)), 0, Map::empty())
}

impl Passkeys {
    /// No keys.
    pub fn new() -> (p: Passkeys)
        ensures
            p@ == Map::<Seq<char>, Seq<char>>::empty(),
            p.path is None,
    {
        let p = Passkeys { keys: Vec::new(), path: None };
        assert(pair_views(p.keys@) =~= Seq::<(Seq<char>, Seq<char>)>::empty());
        p
    }

    pub fn parse(data: &[u8], path: &str) -> (r: Result<Passkeys, Error>)
        ensures
            match r {
                Ok(p) => vstd::utf8::valid_utf8(data@) && keys_of(data@) == Ok::<
                    Map<Seq<char>, Seq<char>>,
                    (int, Seq<char>),
                >(p@) && p.path is None,
                Err(e) => if !vstd::utf8::valid_utf8(data@) {
                    e.is_malformed(path@, not_utf8(data@))
                } else {
                    keys_of(data@) matches Err((k, d)) && e.is_malformed(path@, at_line(k, d))
                },
            },
    {
        let s = match utf8_of(data) {
            Ok(s) => s,
            Err(said) => {
                let mut d = "not valid UTF-8: ".to_owned();
                d.append(&said);
                return Err(Error::malformed(path, &d));
            },
        };
        let lines = lines_of(&s);
        let ghost all = text::views(lines@);
        let mut keys: Vec<(String, String)> = Vec::new();
        let mut k: usize = 0;
        assert(pair_views(keys@) =~= Seq::<(Seq<char>, Seq<char>)>::empty());
        while k < lines.len()
            invariant
                k <= lines.len(),
                all == text::views(lines@),
                vstd::utf8::valid_utf8(data@),
                all == text::lines(vstd::utf8::decode_utf8(data@)),
                keys_of(data@) == lines_keys(all, k as int, key_map(pair_views(keys@))),
            decreases lines.len() - k,
        {
            assert(all[k as int] == lines@[k as int]@);
            let line = trim_string(&lines[k]);
            let v = chars_of(&line);
            if v.len() == 0 || v[0] == '#' {
                k += 1;
                continue;
            }
            let i: usize = find_first(&v, '|');
            if i >= v.len() {
                let mut d = debug_of(&line);
                d.append(" is not `tracker id|passkey`");
                return Err(line_error(path, k, &d));
            }
            let id = trim_string(&slice_of(&v, 0, i));
            let key = trim_string(&slice_of(&v, i + 1, v.len()));
            let ghost had = pair_views(keys@);
            let ghost pair = (id@, key@);
            proof {
                assert(v@.subrange(0, i as int) =~= v@.take(i as int));
                assert(v@.subrange(i + 1, v@.len() as int) =~= v@.skip(i + 1));
            }
            keys.push((id, key));
            assert(pair_views(keys@) =~= had.push(pair));
            assert(had.push(pair).drop_last() =~= had);
            k += 1;
        }
        Ok(Passkeys { keys, path: None })
    }

    pub fn get(&self, id: &str) -> (r: Option<&str>)
        ensures
            match r {
                Some(k) => self@.dom().contains(id@) && self@[id@] == k@,
                None => !self@.dom().contains(id@),
            },
    {
        let ghost all = pair_views(self.keys@);
        let mut k: usize = self.keys.len();
        assert(all.take(k as int) =~= all);
        while k > 0
            invariant
                k <= self.keys.len(),
                all == pair_views(self.keys@),
                self@.dom().contains(id@) == key_map(all.take(k as int)).dom().contains(id@),
                self@.dom().contains(id@) ==> self@[id@] == key_map(all.take(k as int))[id@],
            decreases k,
        {
            proof {
                assert(all.take(k as int).drop_last() =~= all.take(k - 1));
                assert(all.take(k as int).last() == (
                    self.keys@[k - 1].0@,
                    self.keys@[k - 1].1@,
                ));
            }
            if same(&self.keys[k - 1].0, id) {
                return Some(self.keys[k - 1].1.as_str());
            }
            k -= 1;
        }
        assert(all.take(0) =~= Seq::<(Seq<char>, Seq<char>)>::empty());
        None
    }

    pub fn is_empty(&self) -> (b: bool)
        ensures
            b == (self@ == Map::<Seq<char>, Seq<char>>::empty()),
    {
        let ghost all = pair_views(self.keys@);
        proof {
            if all.len() > 0 {
                assert(self@.dom().contains(all.last().0));
            } else {
                assert(all =~= Seq::<(Seq<char>, Seq<char>)>::empty());
            }
        }
        self.keys.len() == 0
    }
}

// Choosing trackers.

/// What was chosen: an entry of the list, or a URL that was given and is used verbatim.
#[derive(Debug, Clone)]
pub struct Chosen {
    /// The entry it came from. `None` when a bare URL was given.
    pub tracker: Option<Tracker>,
    /// The announce URL, passkey filled in.
    pub announce: String,
}

/// What was chosen, and the URL.
pub struct Pick {
    pub entry: Option<Entry>,
    pub announce: Seq<char>,
}

impl View for Chosen {
    type V = Pick;

    open spec fn view(&self) -> Pick {
        Pick {
            entry: match self.tracker {
                Some(t) => Some(t@),
                None => None,
            },
            announce: self.announce@,
        }
    }
}

impl Chosen {
    pub fn name(&self) -> (s: &str)
        ensures
            s@ == match self@.entry {
                Some(e) => e.name,
                None => "(given as a URL)"@,
            },
    {
        match &self.tracker {
            Some(t) => t.name.as_str(),
            None => "(given as a URL)",
        }
    }
}

/// Trackers, and what choosing them implies for the torrent itself.
#[derive(Debug, Clone)]
pub struct Resolved {
    /// One tier for each tracker that was named, in the order given. Clients pick at random
    /// within a tier and fall through between tiers, so unrelated sites must not share one.
    pub tiers: Vec<Vec<String>>,
    /// Set by any chosen tracker whose entry is private. Part of the infohash.
    pub private: bool,
    pub source: Option<String>,
    pub chosen: Vec<Chosen>,
    /// Things the user should know that are not reasons to stop.
    pub warnings: Vec<String>,
}

/// What was chosen so far, and the private sites among what was named.
pub struct Picked {
    pub picks: Seq<Pick>,
    pub private: bool,
    pub source: Option<Seq<char>>,
    pub warnings: Seq<Seq<char>>,
    pub sites: Seq<Seq<char>>,
}

pub open spec fn picks(chosen: Seq<Chosen>) -> Seq<Pick> {
    chosen.map_values(|c: Chosen| c@)
}

/// One tier for each choice.
pub open spec fn one_each(picks: Seq<Pick>) -> Seq<Seq<Seq<char>>> {
    picks.map_values(|p: Pick| seq![p.announce])
}

pub open spec fn tier_texts(tiers: Seq<Vec<String>>) -> Seq<Seq<Seq<char>>> {
    tiers.map_values(|t: Vec<String>| text::views(t@))
}

pub open spec fn or_text(o: Option<Seq<char>>, other: Seq<char>) -> Seq<char> {
    match o {
        Some(s) => s,
        None => other,
    }
}

pub open spec fn when_checked(e: Entry) -> Seq<char> {
    or_text(e.checked, "an unknown date"@)
}

pub open spec fn what_was_seen(e: Entry) -> Seq<char> {
    or_text(e.evidence, "no detail was recorded"@)
}

/// Why an entry is refused.
pub open spec fn refusal(e: Entry) -> Seq<char> {
    if e.health is PersonalUrl {
        e.name
            + " issues a personal announce URL; the one in the list authorizes nobody. Checked "@
            + when_checked(e) + ": "@ + what_was_seen(e)
            + ". Get yours from the site and pass it with --tracker <URL>."@
    } else {
        e.announce + " cannot work. Checked "@ + when_checked(e) + ": "@ + what_was_seen(e)
            + ". If you know a URL that does, pass it with --tracker <URL>."@
    }
}

pub open spec fn unknown(list: Seq<Entry>) -> Seq<char> {
    "no tracker by that name. Known ids: "@ + ids_text(list)
        + ". An announce URL is taken verbatim, but it needs a scheme (http://…)"@
}

pub open spec fn did_not_answer(e: Entry) -> Seq<char> {
    e.name + " did not answer when we checked on "@ + when_checked(e) + " ("@ + what_was_seen(e)
        + "). That is not proof it is gone — it may just be unreachable from where we looked."@
}

pub open spec fn two_sources(wanted: Seq<char>, other: Seq<char>) -> Seq<char> {
    "wants info.source "@ + text::debug_text(wanted) + " but another tracker wants "@
        + text::debug_text(other)
        + "; source is inside the infohash, so one torrent cannot satisfy both"@
}

/// Whether a URL is among those chosen.
pub open spec fn is_picked(picks: Seq<Pick>, url: Seq<char>) -> bool {
    exists|i: int| 0 <= i < picks.len() && (#[trigger] picks[i]).announce == url
}

/// One more choice: taken, or warned of where its URL is chosen already.
pub open spec fn with_pick(at: Picked, p: Pick) -> Picked {
    if is_picked(at.picks, p.announce) {
        Picked {
            picks: at.picks,
            private: at.private,
            source: at.source,
            warnings: at.warnings.push(p.announce + " was named twice; using it once"@),
            sites: at.sites,
        }
    } else {
        Picked {
            picks: at.picks.push(p),
            private: at.private,
            source: at.source,
            warnings: at.warnings,
            sites: at.sites,
        }
    }
}

/// What naming a tracker does: the choices with it, or the tracker that is refused and why.
pub open spec fn named(
    at: Picked,
    name: Seq<char>,
    list: Seq<Entry>,
    keys: Map<Seq<char>, Seq<char>>,
    file: Seq<char>,
) -> Result<Picked, (Seq<char>, Seq<char>)> {
    if text::occurs(name, "://"@) {
        Ok(with_pick(at, Pick { entry: None, announce: name }))
    } else {
        match found(list, name) {
            None => Err((name, unknown(list))),
            Some(e) => if !e.health.may_be_used() {
                Err((e.id, refusal(e)))
            } else if filled(e, keys) is None {
                Err((e.id, no_passkey(e, file)))
            } else if e.source is Some && at.source is Some && e.source != at.source {
                Err((e.id, two_sources(e.source->0, at.source->0)))
            } else {
                Ok(
                    with_pick(
                        Picked {
                            picks: at.picks,
                            private: at.private || e.private,
                            source: if e.source is Some {
                                e.source
                            } else {
                                at.source
                            },
                            warnings: if e.health is Unreachable {
                                at.warnings.push(did_not_answer(e))
                            } else {
                                at.warnings
                            },
                            sites: if e.private {
                                at.sites.push(e.name)
                            } else {
                                at.sites
                            },
                        },
                        Pick { entry: Some(e), announce: filled(e, keys)->0 },
                    ),
                )
            },
        }
    }
}

/// What naming several does, from the `k`-th on.
pub open spec fn all_named(
    at: Picked,
    names: Seq<Seq<char>>,
    k: int,
    list: Seq<Entry>,
    keys: Map<Seq<char>, Seq<char>>,
    file: Seq<char>,
) -> Result<Picked, (Seq<char>, Seq<char>)>
    decreases names.len() - k,
{
    if k < 0 || k >= names.len() {
        Ok(at)
    } else {
        match named(at, names[k], list, keys, file) {
            Ok(next) => all_named(next, names, k + 1, list, keys, file),
            Err(e) => Err(e),
        }
    }
}

pub open spec fn none_picked() -> Picked {
    Picked {
        picks: Seq::empty(),
        private: false,
        source: None,
        warnings: Seq::empty(),
        sites: Seq::empty(),
    }
}

/// The last warning: cross-posting a private torrent gets accounts banned, but it is the
/// user's account.
pub open spec fn all_warnings(p: Picked) -> Seq<Seq<char>> {
    if p.sites.len() > 1 {
        p.warnings.push(
            "you named "@ + text::decimal(p.sites.len()) + " private sites ("@ + text::join(
                p.sites,
                ", "@,
            ) + "). Cross-posting one torrent to several breaks most sites' rules."@,
        )
    } else {
        p.warnings
    }
}

pub open spec fn is_resolved(r: Resolved, p: Picked) -> bool {
    &&& picks(r.chosen@) == p.picks
    &&& tier_texts(r.tiers@) == one_each(p.picks)
    &&& r.private == p.private
    &&& opt(r.source) == p.source
    &&& text::views(r.warnings@) == all_warnings(p)
}

fn opt_or(o: &Option<String>, other: &str) -> (s: String)
    ensures
        s@ == or_text(opt(*o), other@),
{
    match o {
        Some(s) => s.clone(),
        None => other.to_owned(),
    }
}

fn refuse_unusable(t: &Tracker) -> (r: Result<(), Error>)
    ensures
        match r {
            Ok(_) => t.health.may_be_used(),
            Err(e) => !t.health.may_be_used() && is_unusable(e, t.id@, refusal(t@)),
        },
{
    if t.health.usable() {
        return Ok(());
    }
    let checked = opt_or(&t.checked, "an unknown date");
    let saw = opt_or(&t.evidence, "no detail was recorded");
    let d = match t.health {
        Health::PersonalUrl => {
            let mut d = t.name.clone();
            d.append(
                " issues a personal announce URL; the one in the list authorizes nobody. Checked ",
            );
            d.append(&checked);
            d.append(": ");
            d.append(&saw);
            d.append(". Get yours from the site and pass it with --tracker <URL>.");
            d
        },
        _ => {
            let mut d = t.announce.clone();
            d.append(" cannot work. Checked ");
            d.append(&checked);
            d.append(": ");
            d.append(&saw);
            d.append(". If you know a URL that does, pass it with --tracker <URL>.");
            d
        },
    };
    Err(unusable(&t.id, &d))
}

fn silence(t: &Tracker) -> (s: String)
    ensures
        s@ == did_not_answer(t@),
{
    let mut s = t.name.clone();
    s.append(" did not answer when we checked on ");
    s.append(&opt_or(&t.checked, "an unknown date"));
    s.append(" (");
    s.append(&opt_or(&t.evidence, "no detail was recorded"));
    s.append(
        "). That is not proof it is gone — it may just be unreachable from where we looked.",
    );
    s
}

fn picked_already(chosen: &Vec<Chosen>, url: &str) -> (b: bool)
    ensures
        b == is_picked(picks(chosen@), url@),
{
    let ghost all = picks(chosen@);
    let mut i: usize = 0;
    while i < chosen.len()
        invariant
            i <= chosen.len(),
            all == picks(chosen@),
            forall|k: int| 0 <= k < i ==> (#[trigger] all[k]).announce != url@,
        decreases chosen.len() - i,
    {
        assert(all[i as int] == chosen@[i as int]@);
        if same(&chosen[i].announce, url) {
            return true;
        }
        i += 1;
    }
    false
}

/// The choices so far, as [`named`] goes through them.
struct Gathering {
    tiers: Vec<Vec<String>>,
    private: bool,
    source: Option<String>,
    chosen: Vec<Chosen>,
    warnings: Vec<String>,
    sites: Vec<String>,
}

impl View for Gathering {
    type V = Picked;

    closed spec fn view(&self) -> Picked {
        Picked {
            picks: picks(self.chosen@),
            private: self.private,
            source: opt(self.source),
            warnings: text::views(self.warnings@),
            sites: text::views(self.sites@),
        }
    }
}

impl Gathering {
    fn new() -> (g: Gathering)
        ensures
            g@ == none_picked(),
            tier_texts(g.tiers@) == one_each(picks(g.chosen@)),
    {
        let g = Gathering {
            tiers: Vec::new(),
            private: false,
            source: None,
            chosen: Vec::new(),
            warnings: Vec::new(),
            sites: Vec::new(),
        };
        assert(picks(g.chosen@) =~= Seq::<Pick>::empty());
        assert(text::views(g.warnings@) =~= Seq::<Seq<char>>::empty());
        assert(text::views(g.sites@) =~= Seq::<Seq<char>>::empty());
        assert(tier_texts(g.tiers@) =~= one_each(picks(g.chosen@)));
        g
    }

    fn warn(&mut self, w: String)
        ensures
            final(self)@.warnings == old(self)@.warnings.push(w@),
            final(self)@.picks == old(self)@.picks,
            final(self)@.private == old(self)@.private,
            final(self)@.source == old(self)@.source,
            final(self)@.sites == old(self)@.sites,
            final(self).tiers == old(self).tiers,
            final(self).chosen == old(self).chosen,
    {
        let ghost had = text::views(self.warnings@);
        let ghost v = w@;
        self.warnings.push(w);
        assert(text::views(self.warnings@) =~= had.push(v));
    }

    fn take(&mut self, c: Chosen)
        requires
            tier_texts(old(self).tiers@) == one_each(picks(old(self).chosen@)),
        ensures
            final(self)@ == with_pick(old(self)@, c@),
            tier_texts(final(self).tiers@) == one_each(picks(final(self).chosen@)),
    {
        if picked_already(&self.chosen, &c.announce) {
            let mut w = c.announce.clone();
            w.append(" was named twice; using it once");
            self.warn(w);
            return ;
        }
        let ghost tiers = tier_texts(self.tiers@);
        let ghost had = picks(self.chosen@);
        let ghost p = c@;
        let mut tier: Vec<String> = Vec::new();
        tier.push(c.announce.clone());
        assert(text::views(tier@) =~= seq![p.announce]);
        self.tiers.push(tier);
        self.chosen.push(c);
        assert(tier_texts(self.tiers@) =~= tiers.push(seq![p.announce]));
        assert(picks(self.chosen@) =~= had.push(p));
        assert(one_each(had.push(p)) =~= one_each(had).push(seq![p.announce]));
    }

    fn name(&mut self, name: &str, list: &TrackerList, keys: &Passkeys, file: &str) -> (r: Result<
        (),
        Error,
    >)
        requires
            tier_texts(old(self).tiers@) == one_each(picks(old(self).chosen@)),
        ensures
            match r {
                Ok(_) => named(old(self)@, name@, list@, keys@, file@) == Ok::<
                    Picked,
                    (Seq<char>, Seq<char>),
                >(final(self)@),
                Err(e) => named(old(self)@, name@, list@, keys@, file@) matches Err((i, d))
                    && is_unusable(e, i, d),
            },
            tier_texts(final(self).tiers@) == one_each(picks(final(self).chosen@)),
    {
        if has_text(name, "://") {
            self.take(Chosen { tracker: None, announce: name.to_owned() });
            return Ok(());
        }
        let t = match list.get(name) {
            Some(t) => t,
            None => {
                let mut d = "no tracker by that name. Known ids: ".to_owned();
                d.append(&list.ids());
                d.append(
                    ". An announce URL is taken verbatim, but it needs a scheme (http://…)",
                );
                return Err(unusable(name, &d));
            },
        };
        refuse_unusable(t)?;
        let announce = t.announce_url(keys, file)?;
        match (&t.source, &self.source) {
            (Some(wanted), Some(other)) => {
                if !same(wanted, other) {
                    let mut d = "wants info.source ".to_owned();
                    d.append(&debug_of(wanted));
                    d.append(" but another tracker wants ");
                    d.append(&debug_of(other));
                    d.append(
                        "; source is inside the infohash, so one torrent cannot satisfy both",
                    );
                    return Err(unusable(&t.id, &d));
                }
            },
            _ => {},
        }
        if t.health == Health::Unreachable {
            self.warn(silence(t));
        }
        if t.private {
            let ghost sites = text::views(self.sites@);
            self.sites.push(t.name.clone());
            assert(text::views(self.sites@) =~= sites.push(t.name@));
            self.private = true;
        }
        if t.source.is_some() {
            self.source = copy_opt(&t.source);
        }
        self.take(Chosen { tracker: Some(copy_tracker(t)), announce });
        Ok(())
    }
}

/// Turns what was named, ids from the list or URLs, into tiers. `file` is where a passkey
/// should have come from.
///
/// Refuses rather than write an announce URL that is known not to work: an unknown id, an
/// entry whose URL is broken, an entry that needs a personal URL, or an unfilled passkey.
/// Each refusal names the way out: pass the URL that is right, and it is used verbatim.
pub fn resolve(
    names: &Vec<String>,
    list: &TrackerList,
    keys: &Passkeys,
    file: &str,
) -> (r: Result<Resolved, Error>)
    ensures
        match r {
            Ok(out) => all_named(
                none_picked(),
                text::views(names@),
                0,
                list@,
                keys@,
                file@,
            ) matches Ok(p) && is_resolved(out, p),
            Err(e) => all_named(
                none_picked(),
                text::views(names@),
                0,
                list@,
                keys@,
                file@,
            ) matches Err((i, d)) && is_unusable(e, i, d),
        },
{
    let ghost all = text::views(names@);
    let ghost whole = all_named(none_picked(), all, 0, list@, keys@, file@);
    let mut g = Gathering::new();
    let mut k: usize = 0;
    while k < names.len()
        invariant
            k <= names.len(),
            all == text::views(names@),
            whole == all_named(none_picked(), all, 0, list@, keys@, file@),
            whole == all_named(g@, all, k as int, list@, keys@, file@),
            tier_texts(g.tiers@) == one_each(picks(g.chosen@)),
        decreases names.len() - k,
    {
        assert(all[k as int] == names@[k as int]@);
        g.name(&names[k], list, keys, file)?;
        k += 1;
    }
    let ghost p = g@;
    if g.sites.len() > 1 {
        let mut w = "you named ".to_owned();
        push_decimal(&mut w, g.sites.len() as u64);
        w.append(" private sites (");
        w.append(&join_strings(&g.sites, ", "));
        w.append("). Cross-posting one torrent to several breaks most sites' rules.");
        g.warn(w);
    }
    Ok(
        Resolved {
            tiers: g.tiers,
            private: g.private,
            source: g.source,
            chosen: g.chosen,
            warnings: g.warnings,
        },
    )
}

// Laws.

proof fn lemma_position(list: Seq<Entry>, id: Seq<char>, i: int)
    requires
        0 <= i <= list.len(),
    ensures
        i <= position(list, id, i) <= list.len(),
        position(list, id, i) < list.len() ==> list[position(list, id, i)].id == id,
        forall|k: int| i <= k < position(list, id, i) ==> (#[trigger] list[k]).id != id,
    decreases list.len() - i,
{
    if i < list.len() && list[i].id != id {
        lemma_position(list, id, i + 1);
    }
}

/// What stands at an index, where nothing before it can be chosen by that id.
proof fn lemma_found_at(list: Seq<Entry>, id: Seq<char>, i: int)
    requires
        0 <= i < list.len(),
        list[i].id == id,
        !(list[i].origin is Overridden),
        forall|k: int|
            0 <= k < i ==> (#[trigger] list[k]).id != id || list[k].origin is Overridden,
    ensures
        found(list, id) == Some(list[i]),
    decreases i,
{
    if i > 0 {
        let rest = list.drop_first();
        assert forall|k: int| 0 <= k < i - 1 implies (#[trigger] rest[k]).id != id
            || rest[k].origin is Overridden by {
            assert(rest[k] == list[k + 1]);
        }
        lemma_found_at(rest, id, i - 1);
    }
}

proof fn lemma_found_split(a: Seq<Entry>, b: Seq<Entry>, id: Seq<char>)
    ensures
        found(a + b, id) == (if found(a, id) is Some {
            found(a, id)
        } else {
            found(b, id)
        }),
    decreases a.len(),
{
    if a.len() == 0 {
        assert(a + b =~= b);
    } else {
        assert((a + b).drop_first() =~= a.drop_first() + b);
        lemma_found_split(a.drop_first(), b, id);
    }
}

/// A user's entry is what its id stands for from then on, and no other id is touched.
pub proof fn law_merged_entry_wins(list: Seq<Entry>, e: Entry, other: Seq<char>)
    requires
        !(e.origin is Overridden),
        other != e.id,
    ensures
        found(with_entry(list, e), e.id) == Some(e),
        found(with_entry(list, e), other) == found(list, other),
{
    let i = position(list, e.id, 0);
    lemma_position(list, e.id, 0);
    let out = with_entry(list, e);
    if i < list.len() {
        assert forall|k: int| 0 <= k < i implies (#[trigger] out[k]).id != e.id by {
            assert(out[k] == list[k]);
        }
        lemma_found_at(out, e.id, i);
        let gone = replaced_entry(list[i]);
        let a = list.take(i);
        let b = list.skip(i + 1);
        assert(out =~= a + (seq![e, gone] + b));
        assert(list =~= a + (seq![list[i]] + b));
        lemma_found_split(a, seq![e, gone] + b, other);
        lemma_found_split(seq![e, gone], b, other);
        lemma_found_split(a, seq![list[i]] + b, other);
        lemma_found_split(seq![list[i]], b, other);
        reveal_with_fuel(found, 3);
        assert(seq![e, gone].drop_first() =~= seq![gone]);
        assert(seq![gone].drop_first() =~= Seq::<Entry>::empty());
        assert(seq![list[i]].drop_first() =~= Seq::<Entry>::empty());
        assert(found(seq![e, gone], other) is None);
        assert(found(seq![list[i]], other) is None);
    } else {
        assert forall|k: int| 0 <= k < i implies (#[trigger] out[k]).id != e.id by {
            assert(out[k] == list[k]);
        }
        lemma_found_at(out, e.id, i);
        assert(out =~= list + seq![e]);
        lemma_found_split(list, seq![e], other);
        reveal_with_fuel(found, 2);
        assert(seq![e].drop_first() =~= Seq::<Entry>::empty());
    }
}

/// Of the entries of one id, none but the first can be chosen.
pub open spec fn one_current_each(list: Seq<Entry>) -> bool {
    forall|i: int, j: int|
        0 <= i < j < list.len() && (#[trigger] list[i]).id == (#[trigger] list[j]).id
            ==> list[j].origin is Overridden
}

/// No list shows two entries of one id that can both be chosen.
pub proof fn law_merging_keeps_ids_apart(list: Seq<Entry>, e: Entry)
    requires
        one_current_each(list),
    ensures
        one_current_each(with_entry(list, e)),
{
    let at = position(list, e.id, 0);
    lemma_position(list, e.id, 0);
    let out = with_entry(list, e);
    assert forall|i: int, j: int|
        0 <= i < j < out.len() && (#[trigger] out[i]).id == (#[trigger] out[j]).id implies out[j]
        .origin is Overridden by {
        if at < list.len() {
            let oi = if i <= at {
                i
            } else {
                i - 1
            };
            let oj = if j <= at {
                j
            } else {
                j - 1
            };
            if j == at {
                assert(out[i] == list[i]);
            } else if j == at + 1 {
            } else if i == at {
                assert(out[j] == list[j - 1]);
                assert(list[at].id == list[j - 1].id);
            } else {
                assert(list[oi].id == out[i].id);
                assert(out[j] == list[oj]);
                assert(list[oi].id == list[oj].id);
            }
        } else {
            assert(out[i] == list[i]);
            if j < list.len() {
                assert(out[j] == list[j]);
            }
        }
    }
}

/// Whether some entry has this id.
pub open spec fn has_id(list: Seq<Entry>, id: Seq<char>) -> bool {
    exists|i: int| 0 <= i < list.len() && (#[trigger] list[i]).id == id
}

/// Entries of a user's list: each can be chosen, and no two share an id.
pub open spec fn is_user_list(new: Seq<Entry>) -> bool {
    &&& forall|i: int| 0 <= i < new.len() ==> (#[trigger] new[i]).origin is User
    &&& forall|i: int, j: int|
        0 <= i < j < new.len() ==> (#[trigger] new[i]).id != (#[trigger] new[j]).id
}

/// What became of an entry: the one whose id is taken over is marked as replaced.
pub open spec fn kept_entry(e: Entry, new: Seq<Entry>) -> Entry {
    if has_id(new, e.id) {
        replaced_entry(e)
    } else {
        e
    }
}

/// The entries whose ids a list does not have, in order.
pub open spec fn fresh(list: Seq<Entry>, new: Seq<Entry>) -> Seq<Entry>
    decreases new.len(),
{
    if new.len() == 0 {
        Seq::empty()
    } else if has_id(list, new.last().id) {
        fresh(list, new.drop_last())
    } else {
        fresh(list, new.drop_last()).push(new.last())
    }
}

/// No two entries that can be chosen share an id.
pub open spec fn ids_apart(list: Seq<Entry>) -> bool {
    forall|i: int, j: int|
        0 <= i < j < current(list).len() ==> (#[trigger] current(list)[i]).id != (
        #[trigger] current(list)[j]).id
}

proof fn lemma_current_is_listed(list: Seq<Entry>, i: int)
    requires
        0 <= i < current(list).len(),
    ensures
        list.contains(current(list)[i]),
    decreases list.len(),
{
    let front = list.drop_last();
    if i < current(front).len() {
        lemma_current_is_listed(front, i);
        let k = choose|k: int| 0 <= k < front.len() && front[k] == current(front)[i];
        assert(list[k] == current(list)[i]);
    } else {
        assert(list[list.len() - 1] == current(list)[i]);
    }
}

proof fn lemma_ids_apart(list: Seq<Entry>)
    requires
        one_current_each(list),
    ensures
        ids_apart(list),
    decreases list.len(),
{
    if list.len() > 0 {
        let front = list.drop_last();
        assert(one_current_each(front)) by {
            assert forall|i: int, j: int|
                0 <= i < j < front.len() && (#[trigger] front[i]).id == (#[trigger] front[j]).id
                implies front[j].origin is Overridden by {
                assert(list[i] == front[i] && list[j] == front[j]);
            }
        }
        lemma_ids_apart(front);
        assert forall|i: int, j: int| 0 <= i < j < current(list).len() implies (
        #[trigger] current(list)[i]).id != (#[trigger] current(list)[j]).id by {
            if j == current(front).len() {
                lemma_current_is_listed(front, i);
                let k = choose|k: int| 0 <= k < front.len() && front[k] == current(front)[i];
                assert(list[k] == current(list)[i]);
                assert(list[list.len() - 1] == current(list)[j]);
            } else {
                assert(current(list)[i] == current(front)[i]);
                assert(current(list)[j] == current(front)[j]);
            }
        }
    }
}

/// One entry more, and where everything stands then.
proof fn lemma_entry_put_in(list: Seq<Entry>, e: Entry)
    ensures
        ({
            let i = position(list, e.id, 0);
            let out = with_entry(list, e);
            &&& 0 <= i <= list.len()
            &&& i < list.len() <==> has_id(list, e.id)
            &&& out.len() == list.len() + 1
            &&& out[i] == e
            &&& forall|k: int| 0 <= k < i ==> #[trigger] out[k] == list[k]
            &&& i < list.len() ==> out[i + 1] == replaced_entry(list[i])
            &&& forall|k: int| i < k < list.len() ==> out[k + 1] == #[trigger] list[k]
            &&& forall|x: Seq<char>| #[trigger]
                has_id(out, x) == (has_id(list, x) || x == e.id)
        }),
{
    let i = position(list, e.id, 0);
    lemma_position(list, e.id, 0);
    let out = with_entry(list, e);
    if i < list.len() {
        assert(list[i].id == e.id);
    }
    assert forall|x: Seq<char>| #[trigger]
        has_id(out, x) == (has_id(list, x) || x == e.id) by {
        if has_id(list, x) {
            let k = choose|k: int| 0 <= k < list.len() && (#[trigger] list[k]).id == x;
            if k < i {
                assert(out[k].id == x);
            } else {
                assert(out[k + 1].id == x);
            }
        }
        if x == e.id {
            assert(out[i].id == x);
        }
        if has_id(out, x) {
            let k = choose|k: int| 0 <= k < out.len() && (#[trigger] out[k]).id == x;
            if k < i {
                assert(list[k].id == x);
            } else if k > i {
                assert(list[k - 1].id == x);
            }
        }
    }
}

/// A user's list without its last entry, whose id it then lacks.
proof fn lemma_user_list_front(new: Seq<Entry>)
    requires
        is_user_list(new),
        new.len() > 0,
    ensures
        is_user_list(new.drop_last()),
        !has_id(new.drop_last(), new.last().id),
        forall|x: Seq<char>| #[trigger]
            has_id(new, x) == (has_id(new.drop_last(), x) || x == new.last().id),
{
    let front = new.drop_last();
    let e = new.last();
    assert(new[new.len() - 1] == e);
    assert forall|i: int| 0 <= i < front.len() implies (#[trigger] front[i]).origin is User by {
        assert(new[i] == front[i]);
    }
    assert forall|i: int, j: int| 0 <= i < j < front.len() implies (#[trigger] front[i]).id != (
    #[trigger] front[j]).id by {
        assert(new[i] == front[i] && new[j] == front[j]);
    }
    if has_id(front, e.id) {
        let k = choose|k: int| 0 <= k < front.len() && (#[trigger] front[k]).id == e.id;
        assert(new[k] == front[k]);
    }
    assert forall|x: Seq<char>| #[trigger]
        has_id(new, x) == (has_id(front, x) || x == e.id) by {
        if has_id(front, x) {
            let k = choose|k: int| 0 <= k < front.len() && (#[trigger] front[k]).id == x;
            assert(new[k].id == x);
        }
        if has_id(new, x) {
            let k = choose|k: int| 0 <= k < new.len() && (#[trigger] new[k]).id == x;
            if k < front.len() {
                assert(front[k].id == x);
            }
        }
    }
}

proof fn lemma_merged_ids(list: Seq<Entry>, new: Seq<Entry>)
    requires
        one_current_each(list),
        is_user_list(new),
    ensures
        with_entries(list, new).len() == list.len() + new.len(),
        one_current_each(with_entries(list, new)),
        forall|x: Seq<char>| #[trigger]
            has_id(with_entries(list, new), x) == (has_id(list, x) || has_id(new, x)),
    decreases new.len(),
{
    if new.len() > 0 {
        let front = new.drop_last();
        let before = with_entries(list, front);
        lemma_user_list_front(new);
        lemma_merged_ids(list, front);
        lemma_entry_put_in(before, new.last());
        law_merging_keeps_ids_apart(before, new.last());
    }
}

proof fn lemma_merged_found(list: Seq<Entry>, new: Seq<Entry>)
    requires
        is_user_list(new),
    ensures
        forall|i: int|
            0 <= i < new.len() ==> found(with_entries(list, new), (#[trigger] new[i]).id)
                == Some(new[i]),
        forall|x: Seq<char>|
            !has_id(new, x) ==> #[trigger] found(with_entries(list, new), x) == found(list, x),
    decreases new.len(),
{
    if new.len() > 0 {
        let front = new.drop_last();
        let e = new.last();
        let before = with_entries(list, front);
        let out = with_entries(list, new);
        lemma_user_list_front(new);
        lemma_merged_found(list, front);
        assert(new[new.len() - 1] == e);
        assert forall|i: int| 0 <= i < new.len() implies found(out, (#[trigger] new[i]).id)
            == Some(new[i]) by {
            if i < front.len() {
                assert(front[i] == new[i]);
                law_merged_entry_wins(before, e, new[i].id);
            } else {
                // Any other id will do.
                let other = e.id.push('x');
                assert(other.len() == e.id.len() + 1);
                law_merged_entry_wins(before, e, other);
            }
        }
        assert forall|x: Seq<char>| !has_id(new, x) implies #[trigger] found(out, x) == found(
            list,
            x,
        ) by {
            law_merged_entry_wins(before, e, x);
        }
    }
}

/// An entry of old is still in the list.
proof fn lemma_merged_kept(list: Seq<Entry>, new: Seq<Entry>, i: int)
    requires
        one_current_each(list),
        is_user_list(new),
        0 <= i < list.len(),
    ensures
        with_entries(list, new).contains(kept_entry(list[i], new)),
    decreases new.len(),
{
    let out = with_entries(list, new);
    if new.len() == 0 {
        assert(out[i] == list[i]);
    } else {
        let front = new.drop_last();
        let e = new.last();
        let before = with_entries(list, front);
        let was = kept_entry(list[i], front);
        let now = kept_entry(list[i], new);
        lemma_user_list_front(new);
        lemma_merged_ids(list, front);
        lemma_merged_kept(list, front, i);
        lemma_entry_put_in(before, e);
        let at = position(before, e.id, 0);
        assert(has_id(new, list[i].id) == (has_id(front, list[i].id) || list[i].id == e.id));
        let j = choose|j: int| 0 <= j < before.len() && before[j] == was;
        lemma_position(before, e.id, 0);
        if was.id == e.id {
            assert(now == replaced_entry(was));
            assert(at < before.len());
            if j > at {
                assert(before[at].id == before[j].id);
                assert(out[j + 1] == before[j]);
            } else {
                assert(out[at + 1] == now);
            }
        } else {
            assert(now == was);
            if j < at {
                assert(out[j] == before[j]);
            } else {
                assert(out[j + 1] == before[j]);
            }
        }
    }
}

/// The entries whose ids are new come last.
proof fn lemma_merged_last(list: Seq<Entry>, new: Seq<Entry>)
    requires
        one_current_each(list),
        is_user_list(new),
    ensures
        fresh(list, new).len() <= with_entries(list, new).len(),
        with_entries(list, new).skip(with_entries(list, new).len() - fresh(list, new).len())
            == fresh(list, new),
        forall|k: int|
            0 <= k < fresh(list, new).len() ==> has_id(new, (#[trigger] fresh(list, new)[k]).id),
    decreases new.len(),
{
    let out = with_entries(list, new);
    let last = fresh(list, new);
    if new.len() == 0 {
        assert(out.skip(out.len() as int) =~= last);
    } else {
        let front = new.drop_last();
        let e = new.last();
        let before = with_entries(list, front);
        let old_last = fresh(list, front);
        lemma_user_list_front(new);
        lemma_merged_ids(list, front);
        lemma_merged_last(list, front);
        lemma_entry_put_in(before, e);
        let at = position(before, e.id, 0);
        lemma_position(before, e.id, 0);
        let cut = before.len() - old_last.len();
        let tail = before.skip(cut);
        assert(has_id(before, e.id) == has_id(list, e.id));
        let shift: int = if at < before.len() {
            1
        } else {
            0
        };
        if at < before.len() && at >= cut {
            assert(tail[at - cut] == before[at]);
            assert(has_id(front, old_last[at - cut].id));
        }
        assert forall|k: int| 0 <= k < old_last.len() implies #[trigger] out[cut + shift + k]
            == old_last[k] by {
            assert(tail[k] == before[cut + k]);
            if shift == 1 {
                assert(out[cut + k + 1] == before[cut + k]);
            } else {
                assert(out[cut + k] == before[cut + k]);
            }
        }
        let end = out.skip(out.len() - last.len());
        assert forall|k: int| 0 <= k < last.len() implies end[k] == last[k] by {
            if k < old_last.len() {
                assert(out[cut + shift + k] == old_last[k]);
            }
        }
        assert(end =~= last);
        assert forall|k: int| 0 <= k < last.len() implies has_id(new, (#[trigger] last[k]).id) by {
            if k < old_last.len() {
                assert(has_id(front, old_last[k].id));
            }
        }
    }
}

proof fn lemma_fields_keep_origin(e: Entry, fields: Seq<Seq<char>>, k: int)
    requires
        e.origin is User,
    ensures
        with_fields(e, fields, k) matches Ok(r) ==> r.origin is User,
    decreases fields.len() - k,
{
    if 0 <= k < fields.len() {
        if let Ok(next) = with_field(e, fields[k]) {
            lemma_fields_keep_origin(next, fields, k + 1);
        }
    }
}

proof fn lemma_lines_are_a_user_list(lines: Seq<Seq<char>>, k: int, list: Seq<Entry>)
    requires
        is_user_list(list),
    ensures
        lines_entries(lines, k, list) matches Ok(r) ==> is_user_list(r),
    decreases lines.len() - k,
{
    if 0 <= k < lines.len() {
        let line = text::trim(lines[k]);
        if is_blank(line) {
            lemma_lines_are_a_user_list(lines, k + 1, list);
        } else if let Ok(e) = line_entry(line) {
            let fields = text::split_on(line, '|');
            let name = text::trim(fields[0]);
            let announce = text::trim(fields[1]);
            lemma_fields_keep_origin(
                user_entry(slug(name), name, announce, false, None),
                fields,
                2,
            );
            lemma_position(list, e.id, 0);
            if taken(list, e.id) >= list.len() {
                let more = list.push(e);
                assert forall|i: int, j: int| 0 <= i < j < more.len() implies (
                #[trigger] more[i]).id != (#[trigger] more[j]).id by {
                    assert(more[i] == list[i]);
                    if j < list.len() {
                        assert(more[j] == list[j]);
                    }
                }
                lemma_lines_are_a_user_list(lines, k + 1, more);
            }
        }
    }
}

/// The ids of the shipped entries are all different.
pub proof fn law_shipped_ids_differ()
    ensures
        one_current_each(shipped_list()),
{
    reveal_strlit("crosstown");
    reveal_strlit("dime");
    reveal_strlit("etree");
    reveal_strlit("genesis");
    reveal_strlit("jamtothis");
    reveal_strlit("losslesslegs");
    reveal_strlit("mindwarp");
    reveal_strlit("tradersden");
    reveal_strlit("yeeshkul");
    reveal_strlit("zappateers");
    reveal_strlit("zomb");
    let list = shipped_list();
    assert forall|i: int, j: int|
        0 <= i < j < list.len() && (#[trigger] list[i]).id == (#[trigger] list[j]).id implies list[j]
        .origin is Overridden by {
        assert(list[i].id[0] == list[j].id[0]);
        assert(list[i].id.len() == list[j].id.len());
    }
}

/// A whole list that is merged over another. Each of its entries is what its id stands for
/// from then on, and every other id stands for what it did; no two entries that can be chosen
/// share an id; the list is longer by what was merged, with every entry of old still in it,
/// marked as replaced where its id was taken over; and the entries whose ids are new come
/// last, in their order.
pub proof fn law_merged_list_wins(list: Seq<Entry>, data: Seq<u8>)
    requires
        one_current_each(list),
        list_fault(data) is None,
    ensures
        ({
            let new = list_of(data);
            let out = with_entries(list, new);
            let last = fresh(list, new);
            &&& is_user_list(new)
            &&& forall|i: int|
                0 <= i < new.len() ==> found(out, (#[trigger] new[i]).id) == Some(new[i])
            &&& forall|x: Seq<char>|
                !has_id(new, x) ==> #[trigger] found(out, x) == found(list, x)
            &&& one_current_each(out)
            &&& ids_apart(out)
            &&& out.len() == list.len() + new.len()
            &&& forall|i: int|
                0 <= i < list.len() ==> out.contains(#[trigger] kept_entry(list[i], new))
            &&& last.len() <= out.len() && out.skip(out.len() - last.len()) == last
        }),
{
    let new = list_of(data);
    lemma_lines_are_a_user_list(
        text::lines(vstd::utf8::decode_utf8(data)),
        0,
        Seq::empty(),
    );
    lemma_merged_ids(list, new);
    lemma_merged_found(list, new);
    lemma_merged_last(list, new);
    lemma_ids_apart(with_entries(list, new));
    assert forall|i: int| 0 <= i < list.len() implies with_entries(list, new).contains(
        #[trigger] kept_entry(list[i], new),
    ) by {
        lemma_merged_kept(list, new, i);
    }
}

/// What was chosen is right: an entry that may be used, with its URL, or a URL as given.
pub open spec fn sound(
    picks: Seq<Pick>,
    names: Seq<Seq<char>>,
    list: Seq<Entry>,
    keys: Map<Seq<char>, Seq<char>>,
) -> bool {
    &&& forall|i: int|
        0 <= i < picks.len() ==> match (#[trigger] picks[i]).entry {
            Some(e) => found(list, e.id) == Some(e) && e.health.may_be_used() && filled(e, keys)
                == Some(picks[i].announce),
            None => names.contains(picks[i].announce) && text::occurs(picks[i].announce, "://"@),
        }
    &&& forall|i: int, j: int|
        0 <= i < j < picks.len() ==> (#[trigger] picks[i]).announce != (
        #[trigger] picks[j]).announce
}

/// No torrent gets a URL that is known not to work, an unfilled passkey, a URL that differs
/// from the one given, or the same URL twice.
pub proof fn law_resolved_trackers_work(
    names: Seq<Seq<char>>,
    list: Seq<Entry>,
    keys: Map<Seq<char>, Seq<char>>,
    file: Seq<char>,
)
    ensures
        all_named(none_picked(), names, 0, list, keys, file) matches Ok(p) ==> sound(
            p.picks,
            names,
            list,
            keys,
        ),
{
    lemma_sound(none_picked(), names, 0, list, keys, file);
}

proof fn lemma_sound(
    at: Picked,
    names: Seq<Seq<char>>,
    k: int,
    list: Seq<Entry>,
    keys: Map<Seq<char>, Seq<char>>,
    file: Seq<char>,
)
    requires
        0 <= k <= names.len(),
        sound(at.picks, names, list, keys),
    ensures
        all_named(at, names, k, list, keys, file) matches Ok(p) ==> sound(
            p.picks,
            names,
            list,
            keys,
        ),
    decreases names.len() - k,
{
    if k < names.len() && named(at, names[k], list, keys, file) is Ok {
        let next = named(at, names[k], list, keys, file)->Ok_0;
        assert(names.contains(names[k]));
        if found(list, names[k]) is Some {
            lemma_found_id(list, names[k]);
        }
        assert(sound(next.picks, names, list, keys));
        lemma_sound(next, names, k + 1, list, keys, file);
    }
}

proof fn lemma_found_id(list: Seq<Entry>, id: Seq<char>)
    requires
        found(list, id) is Some,
    ensures
        found(list, id)->0.id == id,
    decreases list.len(),
{
    if !(!(list[0].origin is Overridden) && list[0].id == id) {
        lemma_found_id(list.drop_first(), id);
    }
}

} // verus!
