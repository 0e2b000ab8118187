//! What a tracker list, a list of passkeys and a choice of trackers come to.

use super::trackers;
use super::trackers::{Entry, Pick, Picked, Resolved};
use crate::checksum::lines;
use crate::text;
use vstd::prelude::*;

verus! {

/// A text that starts and ends with no white space.
pub open spec fn is_plain(s: Seq<char>) -> bool {
    s.len() > 0 && !text::is_space(s[0]) && !text::is_space(s.last())
}

proof fn lemma_plain(s: Seq<char>)
    requires
        is_plain(s),
    ensures
        text::trim(s) == s,
{
    let none = Seq::<char>::empty();
    assert(none + s + none =~= s);
    lines::lemma_trim(none, s, none);
}

proof fn lemma_two(a: Seq<char>, b: Seq<char>)
    requires
        !a.contains('|'),
        !b.contains('|'),
    ensures
        text::split_on(a + seq!['|'] + b, '|') == seq![a, b],
{
    let none = Seq::<char>::empty();
    let bar = seq!['|'];
    text::lemma_split_extend(none, a, '|');
    assert(none + a =~= a);
    assert(text::split_on(none, '|').drop_last() =~= Seq::<Seq<char>>::empty());
    assert(text::split_on(a, '|') =~= seq![a]);
    let s = a + bar;
    assert(s.drop_last() =~= a);
    assert(text::split_on(s, '|') =~= seq![a, none]);
    text::lemma_split_extend(s, b, '|');
    assert(none + b =~= b);
    assert(text::split_on(s + b, '|') =~= seq![a, b]);
}

proof fn lemma_more(s: Seq<char>, b: Seq<char>)
    requires
        !b.contains('|'),
    ensures
        text::split_on(s + seq!['|'] + b, '|') == text::split_on(s, '|').push(b),
{
    let none = Seq::<char>::empty();
    let t = s + seq!['|'];
    assert(t.drop_last() =~= s);
    text::lemma_split_extend(t, b, '|');
    assert(none + b =~= b);
    assert(text::split_on(t + b, '|') =~= text::split_on(s, '|').push(b));
}

/// A line of a list is a name, a bar and a URL. It is the user's own, unchecked, not private
/// and without a source, and its id comes from the name where one can be made of it.
pub proof fn law_line_is_a_tracker(name: Seq<char>, url: Seq<char>)
    requires
        is_plain(name),
        is_plain(url),
        !name.contains('|'),
        !url.contains('|'),
        trackers::slug(name).len() > 0,
    ensures
        trackers::line_entry(name + seq!['|'] + url) matches Ok(e) && e.name == name && e.announce
            == url && e.id == trackers::slug(name) && !e.private && e.source is None
            && e.health is Unchecked && e.origin is User && e.checked is None && e.evidence
            is None,
{
    let line = name + seq!['|'] + url;
    lemma_two(name, url);
    lemma_plain(name);
    lemma_plain(url);
    let fields = text::split_on(line, '|');
    assert(fields[0] == name);
    assert(fields[1] == url);
    assert(fields.len() == 2);
}

/// A further field makes it private, or gives it a source or an id of its own, and leaves the
/// rest as it was.
pub proof fn law_fields_say_more(e: Entry, value: Seq<char>)
    requires
        is_plain(value),
    ensures
        trackers::with_field(e, seq!['p', 'r', 'i', 'v', 'a', 't', 'e']) matches Ok(n) && n.private
            && n.id == e.id && n.name == e.name && n.announce == e.announce && n.source
            == e.source,
        trackers::with_field(e, seq!['s', 'o', 'u', 'r', 'c', 'e', '='] + value) matches Ok(n)
            && n.source == Some(value) && n.private == e.private && n.id == e.id && n.name
            == e.name && n.announce == e.announce,
        trackers::with_field(e, seq!['i', 'd', '='] + value) matches Ok(n) && n.id == value
            && n.private == e.private && n.source == e.source && n.name == e.name && n.announce
            == e.announce,
{
    reveal_strlit("private");
    reveal_strlit("source");
    reveal_strlit("id");
    let private = seq!['p', 'r', 'i', 'v', 'a', 't', 'e'];
    assert("private"@ =~= private);
    assert(!text::is_space('p') && !text::is_space('e') && !text::is_space('s')
        && !text::is_space('i'));
    lemma_plain(private);
    text::lemma_first_at(private, '=');
    lemma_plain(value);
    let a = seq!['s', 'o', 'u', 'r', 'c', 'e', '='] + value;
    assert(a.last() == value.last());
    lemma_plain(a);
    text::lemma_first_at(a, '=');
    let i = text::first_at(a, '=');
    assert(a[6] == '=');
    assert(i == 6);
    assert(a.take(6) =~= "source"@);
    assert(a.skip(7) =~= value);
    assert("source"@.len() == 6 && "id"@.len() == 2);
    let b = seq!['i', 'd', '='] + value;
    assert(b.last() == value.last());
    lemma_plain(b);
    text::lemma_first_at(b, '=');
    assert(b[2] == '=');
    assert(text::first_at(b, '=') == 2);
    assert(b.take(2) =~= "id"@);
    assert(b.skip(3) =~= value);
}

/// Each field of a line says its own: one more field behind a line that was read is read as it
/// would be by itself.
pub proof fn law_fields_follow_one_another(line: Seq<char>, e: Entry, field: Seq<char>)
    requires
        trackers::line_entry(line) == Ok::<Entry, Seq<char>>(e),
        !field.contains('|'),
        trackers::with_field(e, field) matches Ok(n) && n.id.len() > 0,
    ensures
        trackers::line_entry(line + seq!['|'] + field) == trackers::with_field(e, field),
{
    lemma_more(line, field);
    let fields = text::split_on(line, '|');
    let all = fields.push(field);
    assert(all[0] == fields[0]);
    assert(all[1] == fields[1]);
    let name = text::trim(fields[0]);
    let url = text::trim(fields[1]);
    let start = trackers::user_entry(trackers::slug(name), name, url, false, None);
    lemma_one_more_field(start, fields, field, 2);
}

proof fn lemma_one_more_field(e: Entry, fields: Seq<Seq<char>>, field: Seq<char>, k: int)
    requires
        0 <= k <= fields.len(),
        trackers::with_fields(e, fields, k) is Ok,
    ensures
        trackers::with_fields(e, fields.push(field), k) == trackers::with_field(
            trackers::with_fields(e, fields, k)->Ok_0,
            field,
        ),
    decreases fields.len() - k,
{
    let all = fields.push(field);
    if k < fields.len() {
        assert(all[k] == fields[k]);
        lemma_one_more_field(trackers::with_field(e, fields[k])->Ok_0, fields, field, k + 1);
    } else {
        assert(all[k] == field);
        let last = trackers::with_field(e, field);
        if last is Ok {
            assert(trackers::with_fields(last->Ok_0, all, k + 1) == last);
        }
    }
}

/// An id that comes from a name is its letters and digits, one for one and in lower case, with
/// everything else left out.
pub proof fn law_id_is_what_can_be_typed(name: Seq<char>, c: char)
    ensures
        trackers::slug(Seq::<char>::empty()) == Seq::<char>::empty(),
        'a' <= c && c <= 'z' || '0' <= c && c <= '9' ==> trackers::slug(name.push(c))
            == trackers::slug(name).push(c),
        'A' <= c && c <= 'Z' ==> trackers::slug(name.push(c)) == trackers::slug(name).push(
            (c as int + 32) as char,
        ),
        !('a' <= c && c <= 'z' || '0' <= c && c <= '9' || 'A' <= c && c <= 'Z') ==> trackers::slug(
            name.push(c),
        ) == trackers::slug(name),
{
    assert(name.push(c).drop_last() =~= name);
}

/// A line of the passkeys is an id, a bar and the key, which from then on is that tracker's,
/// and no other's changes.
pub proof fn law_passkey_is_read(
    lines: Seq<Seq<char>>,
    k: int,
    keys: Map<Seq<char>, Seq<char>>,
    id: Seq<char>,
    key: Seq<char>,
)
    requires
        0 <= k < lines.len(),
        is_plain(id),
        is_plain(key),
        !id.contains('|'),
        id[0] != '#',
        lines[k] == id + seq!['|'] + key,
    ensures
        trackers::lines_keys(lines, k, keys) == trackers::lines_keys(
            lines,
            k + 1,
            keys.insert(id, key),
        ),
{
    let line = id + seq!['|'] + key;
    assert(line[0] == id[0]);
    assert(line.last() == key.last());
    lemma_plain(line);
    lemma_plain(id);
    lemma_plain(key);
    text::lemma_first_at(line, '|');
    assert(line[id.len() as int] == '|');
    let i = text::first_at(line, '|');
    assert(i == id.len()) by {
        if i < id.len() {
            assert(id[i] == '|');
        }
    }
    assert(line.take(i) =~= id);
    assert(line.skip(i + 1) =~= key);
}

proof fn lemma_untouched(s: Seq<char>, pat: Seq<char>, with: Seq<char>, i: int)
    requires
        0 <= i <= s.len(),
        pat.len() > 0,
        forall|k: int| i <= k ==> !(#[trigger] text::occurs_at(s, pat, k)),
    ensures
        text::replaced(s, pat, with, i) == s.skip(i),
    decreases s.len() - i,
{
    if i < s.len() {
        lemma_untouched(s, pat, with, i + 1);
        assert(s.skip(i) =~= seq![s[i]] + s.skip(i + 1));
    } else {
        assert(s.skip(i) =~= Seq::<char>::empty());
    }
}

proof fn lemma_put(
    before: Seq<char>,
    pat: Seq<char>,
    after: Seq<char>,
    with: Seq<char>,
    i: int,
)
    requires
        0 <= i <= before.len(),
        pat.len() > 0,
        !before.contains(pat[0]),
        !after.contains(pat[0]),
        forall|k: int| 0 < k < pat.len() ==> #[trigger] pat[k] != pat[0],
    ensures
        text::replaced(before + pat + after, pat, with, i) == before.skip(i) + with + after,
    decreases before.len() - i,
{
    let s = before + pat + after;
    let n = before.len() as int;
    assert(s.subrange(n, n + pat.len()) =~= pat);
    assert forall|k: int| 0 <= k && k != n implies !(#[trigger] text::occurs_at(s, pat, k)) by {
        if text::occurs_at(s, pat, k) {
            assert(s[k] == s.subrange(k, k + pat.len())[0]);
            assert(s[k] == pat[0]);
            if k < n {
                assert(before[k] == pat[0]);
            } else if k < n + pat.len() {
                assert(pat[k - n] == pat[0]);
            } else {
                assert(after[k - n - pat.len()] == pat[0]);
            }
        }
    }
    if i < n {
        lemma_put(before, pat, after, with, i + 1);
        assert(!text::occurs_at(s, pat, i));
        assert(text::replaced(s, pat, with, i) =~= before.skip(i) + with + after);
    } else {
        assert(text::occurs_at(s, pat, n));
        lemma_untouched(s, pat, with, n + pat.len());
        assert(s.skip(n + pat.len()) =~= after);
        assert(text::replaced(s, pat, with, i) =~= before.skip(i) + with + after);
    }
}

/// A URL that asks for a passkey gets that of its own tracker, and nothing else in it changes;
/// without one there is no URL. A URL that asks for none is used as it is.
pub proof fn law_passkey_is_put_in(
    e: Entry,
    keys: Map<Seq<char>, Seq<char>>,
    before: Seq<char>,
    after: Seq<char>,
)
    requires
        !before.contains('{'),
        !after.contains('{'),
    ensures
        e.announce == before + "{passkey}"@ + after && keys.dom().contains(e.id)
            ==> trackers::filled(e, keys) == Some(before + keys[e.id] + after),
        e.announce == before + "{passkey}"@ + after && !keys.dom().contains(e.id)
            ==> trackers::filled(e, keys) is None,
        e.announce == before ==> trackers::filled(e, keys) == Some(before),
{
    let pat = "{passkey}"@;
    reveal_strlit("{passkey}");
    let s = before + pat + after;
    let n = before.len() as int;
    assert(s.subrange(n, n + pat.len()) =~= pat);
    assert(text::occurs_at(s, pat, n));
    if keys.dom().contains(e.id) {
        lemma_put(before, pat, after, keys[e.id], 0);
        assert(before.skip(0) =~= before);
    }
    if text::occurs(before, pat) {
        let k = choose|k: int| #[trigger] text::occurs_at(before, pat, k);
        assert(before.subrange(k, k + pat.len())[0] == '{');
        assert(before[k] == '{');
    }
}

/// A tracker that is named by its id is one of the list that has not been replaced, is not
/// known to be broken or personal, and is announced to by its URL with the passkey filled in.
/// The torrent becomes private where it asks for that and takes on its source; and a second
/// source that differs is refused.
pub proof fn law_named_tracker_is_used(
    at: Picked,
    name: Seq<char>,
    list: Seq<Entry>,
    keys: Map<Seq<char>, Seq<char>>,
    file: Seq<char>,
)
    requires
        !text::occurs(name, "://"@),
    ensures
        trackers::named(at, name, list, keys, file) matches Ok(p) ==> exists|i: int|
            0 <= i < list.len() && is_use_of(at, p, #[trigger] list[i], name, keys),
        trackers::named(at, name, list, keys, file) is Ok && at.source is Some ==> (
        trackers::named(at, name, list, keys, file)->Ok_0).source == at.source,
        (forall|i: int| 0 <= i < list.len() ==> (#[trigger] list[i]).id != name)
            ==> trackers::named(at, name, list, keys, file) is Err,
{
    lemma_found(list, name);
    if trackers::found(list, name) is Some {
        let i = choose|i: int|
            0 <= i < list.len() && #[trigger] list[i] == trackers::found(list, name)->0 && !(
            list[i].origin is Overridden) && list[i].id == name;
        if trackers::named(at, name, list, keys, file) is Ok {
            let p = trackers::named(at, name, list, keys, file)->Ok_0;
            assert(is_use_of(at, p, list[i], name, keys));
        }
    }
}

/// What taking an entry does to the choices.
pub open spec fn is_use_of(
    at: Picked,
    p: Picked,
    e: Entry,
    name: Seq<char>,
    keys: Map<Seq<char>, Seq<char>>,
) -> bool {
    &&& e.id == name
    &&& !(e.origin is Overridden) && !(e.health is Broken) && !(e.health is PersonalUrl)
    &&& p.private == (at.private || e.private)
    &&& e.source is Some ==> p.source == e.source
    &&& e.source is None ==> p.source == at.source
    &&& trackers::filled(e, keys) matches Some(url) && {
        ||| p.picks == at.picks.push(Pick { entry: Some(e), announce: url })
        ||| p.picks == at.picks && exists|i: int|
            0 <= i < at.picks.len() && (#[trigger] at.picks[i]).announce == url
    }
}

proof fn lemma_found(list: Seq<Entry>, id: Seq<char>)
    ensures
        trackers::found(list, id) matches Some(e) ==> exists|i: int|
            0 <= i < list.len() && #[trigger] list[i] == e && !(list[i].origin is Overridden)
                && list[i].id == id,
    decreases list.len(),
{
    if list.len() > 0 && !(!(list[0].origin is Overridden) && list[0].id == id) {
        let rest = list.drop_first();
        lemma_found(rest, id);
        if trackers::found(rest, id) is Some {
            let i = choose|i: int|
                0 <= i < rest.len() && #[trigger] rest[i] == trackers::found(rest, id)->0 && !(
                rest[i].origin is Overridden) && rest[i].id == id;
            assert(list[i + 1] == rest[i]);
        }
    } else if list.len() > 0 {
        assert(list[0] == trackers::found(list, id)->0);
    }
}

/// A URL is used as it was given, and asks for nothing.
pub proof fn law_named_url_is_used(
    at: Picked,
    url: Seq<char>,
    list: Seq<Entry>,
    keys: Map<Seq<char>, Seq<char>>,
    file: Seq<char>,
)
    requires
        text::occurs(url, "://"@),
    ensures
        trackers::named(at, url, list, keys, file) matches Ok(p) && p.private == at.private
            && p.source == at.source && (p.picks == at.picks.push(
            Pick { entry: None, announce: url },
        ) || p.picks == at.picks && exists|i: int|
            0 <= i < at.picks.len() && (#[trigger] at.picks[i]).announce == url),
{
}

/// Of what was chosen every URL is a tier of its own, in order, and the torrent is private and
/// has a source where a choice asks for it.
pub proof fn law_each_choice_is_a_tier(r: Resolved, p: Picked, i: int)
    requires
        trackers::is_resolved(r, p),
        0 <= i < p.picks.len(),
    ensures
        r.chosen@.len() == p.picks.len(),
        r.tiers@.len() == p.picks.len(),
        r.chosen@[i].announce@ == p.picks[i].announce,
        r.tiers@[i]@.len() == 1,
        r.tiers@[i]@[0]@ == p.picks[i].announce,
        r.private == p.private,
        r.source is Some == p.source is Some,
        p.source is Some ==> r.source->0@ == p.source->0,
{
    assert(trackers::picks(r.chosen@)[i] == p.picks[i]);
    let a = trackers::tier_texts(r.tiers@);
    let b = trackers::one_each(p.picks);
    assert(a.len() == b.len());
    assert(a[i] == b[i]);
    assert(b[i].len() == 1);
    assert(text::views(r.tiers@[i]@).len() == 1);
    assert(text::views(r.tiers@[i]@)[0] == p.picks[i].announce);
}

} // verus!
