//! Descriptor parsing: decoding one application-descriptor text into an
//! entry. The format is line-based `Key=Value` pairs grouped under bracketed
//! section headers; only the `Desktop Entry` section is read, keys match
//! byte for byte, and the first binding of a key wins. A descriptor without
//! a launch command, or with its no-display flag set, yields no entry.

use vstd::prelude::*;

use crate::bytes::{bytes_eq, filter_nonempty, nonempty_parts, split_on, split_seq};
use crate::catalog::{AppData, ApplicationEntry};

verus! {

/// Name of the section holding the fields read here.
pub open spec fn desktop_entry_section() -> Seq<u8> {
    seq![68, 101, 115, 107, 116, 111, 112, 32, 69, 110, 116, 114, 121]
}

/// Key of the launch command.
pub open spec fn command_key() -> Seq<u8> {
    seq![69, 120, 101, 99]
}

/// Key of the unlocalized display name.
pub open spec fn name_key() -> Seq<u8> {
    seq![78, 97, 109, 101]
}

/// Key of the icon identifier.
pub open spec fn icon_key() -> Seq<u8> {
    seq![73, 99, 111, 110]
}

/// Key of the semicolon-delimited category list.
pub open spec fn categories_key() -> Seq<u8> {
    seq![67, 97, 116, 101, 103, 111, 114, 105, 101, 115]
}

/// Key of the no-display flag.
pub open spec fn no_display_key() -> Seq<u8> {
    seq![78, 111, 68, 105, 115, 112, 108, 97, 121]
}

/// The flag value that marks an entry as hidden.
pub open spec fn true_value() -> Seq<u8> {
    seq![116, 114, 117, 101]
}

/// Placeholder display name for descriptors that give none.
pub open spec fn unknown_name() -> Seq<u8> {
    seq![85, 110, 107, 110, 111, 119, 110]
}

/// Key of a display name localized for `loc`.
pub open spec fn localized_name_key(loc: Seq<u8>) -> Seq<u8> {
    name_key() + seq![91] + loc + seq![93]
}

/// A line of the form `[section]`.
pub open spec fn is_header(l: Seq<u8>) -> bool {
    l.len() >= 2 && l[0] == 91 && l[l.len() - 1] == 93
}

/// The section name between the brackets.
pub open spec fn header_name(l: Seq<u8>) -> Seq<u8> {
    l.subrange(1, l.len() - 1)
}

/// A line of the form `key=value` for exactly this key.
pub open spec fn is_kv(l: Seq<u8>, key: Seq<u8>) -> bool {
    l.len() > key.len() && l.subrange(0, key.len() as int) == key && l[key.len() as int] == 61
}

/// The value part of a `key=value` line.
pub open spec fn kv_value(l: Seq<u8>, key: Seq<u8>) -> Seq<u8> {
    l.subrange(key.len() as int + 1, l.len() as int)
}

/// Value of the first binding of `key` inside the `Desktop Entry` section,
/// walking the lines with `in_sec` telling whether the walk stands inside
/// that section.
pub open spec fn lookup_from(lines: Seq<Seq<u8>>, key: Seq<u8>, in_sec: bool) -> Option<Seq<u8>>
    decreases lines.len(),
{
    if lines.len() == 0 {
        None
    } else {
        let l = lines[0];
        if is_header(l) {
            lookup_from(lines.drop_first(), key, header_name(l) == desktop_entry_section())
        } else if in_sec && is_kv(l, key) {
            Some(kv_value(l, key))
        } else {
            lookup_from(lines.drop_first(), key, in_sec)
        }
    }
}

/// Lines of a descriptor text: split on the newline byte.
pub open spec fn content_lines(c: Seq<u8>) -> Seq<Seq<u8>> {
    split_seq(c, 10)
}

/// Value bound to `key` in the `Desktop Entry` section of a descriptor text.
pub open spec fn lookup_key(c: Seq<u8>, key: Seq<u8>) -> Option<Seq<u8>> {
    lookup_from(content_lines(c), key, false)
}

/// The descriptor's no-display flag is set.
pub open spec fn spec_no_display(c: Seq<u8>) -> bool {
    lookup_key(c, no_display_key()) == Some(true_value())
}

/// The descriptor yields an entry: it has a launch command and its
/// no-display flag is not set.
pub open spec fn spec_accepted(c: Seq<u8>) -> bool {
    lookup_key(c, command_key()) is Some && !spec_no_display(c)
}

/// A looked-up name when it is present and nonempty, else the fallback.
pub open spec fn pick_name(v: Option<Seq<u8>>, fallback: Seq<u8>) -> Seq<u8> {
    match v {
        Some(s) => if s.len() > 0 {
            s
        } else {
            fallback
        },
        None => fallback,
    }
}

/// Display name of a descriptor: the requested locale's name first, then the
/// unlocalized name, then the placeholder.
pub open spec fn spec_name(c: Seq<u8>, loc: Option<Seq<u8>>) -> Seq<u8> {
    match loc {
        Some(l) => pick_name(
            lookup_key(c, localized_name_key(l)),
            pick_name(lookup_key(c, name_key()), unknown_name()),
        ),
        None => pick_name(lookup_key(c, name_key()), unknown_name()),
    }
}

/// Declared categories of a descriptor: the `Categories` value split on
/// semicolons, empty segments discarded.
pub open spec fn spec_categories(c: Seq<u8>) -> Seq<Seq<u8>> {
    match lookup_key(c, categories_key()) {
        None => Seq::empty(),
        Some(v) => nonempty_parts(split_seq(v, 59)),
    }
}

/// The entry an accepted descriptor decodes to.
pub open spec fn parse_data(c: Seq<u8>, loc: Option<Seq<u8>>) -> AppData {
    AppData {
        name: spec_name(c, loc),
        command: lookup_key(c, command_key()).unwrap(),
        icon: lookup_key(c, icon_key()),
        categories: spec_categories(c),
    }
}

/// The requested locale as a spec value.
pub open spec fn locale_view(loc: Option<&Vec<u8>>) -> Option<Seq<u8>> {
    match loc {
        Some(l) => Some(l@),
        None => None,
    }
}

/// The placeholder name is never empty, so a parsed name never is.
pub proof fn lemma_spec_name_nonempty(c: Seq<u8>, loc: Option<Seq<u8>>)
    ensures
        spec_name(c, loc).len() > 0,
{
}

fn section_bytes() -> (v: Vec<u8>)
    ensures
        v@ == desktop_entry_section(),
{
    let v: Vec<u8> = vec![68, 101, 115, 107, 116, 111, 112, 32, 69, 110, 116, 114, 121];
    proof {
        assert(v@ =~= desktop_entry_section());
    }
    v
}

fn command_key_bytes() -> (v: Vec<u8>)
    ensures
        v@ == command_key(),
{
    let v: Vec<u8> = vec![69, 120, 101, 99];
    proof {
        assert(v@ =~= command_key());
    }
    v
}

fn name_key_bytes() -> (v: Vec<u8>)
    ensures
        v@ == name_key(),
{
    let v: Vec<u8> = vec![78, 97, 109, 101];
    proof {
        assert(v@ =~= name_key());
    }
    v
}

fn icon_key_bytes() -> (v: Vec<u8>)
    ensures
        v@ == icon_key(),
{
    let v: Vec<u8> = vec![73, 99, 111, 110];
    proof {
        assert(v@ =~= icon_key());
    }
    v
}

fn categories_key_bytes() -> (v: Vec<u8>)
    ensures
        v@ == categories_key(),
{
    let v: Vec<u8> = vec![67, 97, 116, 101, 103, 111, 114, 105, 101, 115];
    proof {
        assert(v@ =~= categories_key());
    }
    v
}

fn no_display_key_bytes() -> (v: Vec<u8>)
    ensures
        v@ == no_display_key(),
{
    let v: Vec<u8> = vec![78, 111, 68, 105, 115, 112, 108, 97, 121];
    proof {
        assert(v@ =~= no_display_key());
    }
    v
}

fn true_value_bytes() -> (v: Vec<u8>)
    ensures
        v@ == true_value(),
{
    let v: Vec<u8> = vec![116, 114, 117, 101];
    proof {
        assert(v@ =~= true_value());
    }
    v
}

fn unknown_name_bytes() -> (v: Vec<u8>)
    ensures
        v@ == unknown_name(),
{
    let v: Vec<u8> = vec![85, 110, 107, 110, 111, 119, 110];
    proof {
        assert(v@ =~= unknown_name());
    }
    v
}

fn localized_name_key_bytes(loc: &Vec<u8>) -> (v: Vec<u8>)
    ensures
        v@ == localized_name_key(loc@),
{
    let mut v: Vec<u8> = vec![78, 97, 109, 101, 91];
    let mut i: usize = 0;
    while i < loc.len()
        invariant
            i <= loc.len(),
            v@ == seq![78, 97, 109, 101, 91] + loc@.take(i as int),
        decreases loc.len() - i,
    {
        v.push(loc[i]);
        assert(loc@.take(i as int + 1) =~= loc@.take(i as int).push(loc@[i as int]));
        assert(v@ =~= seq![78, 97, 109, 101, 91] + loc@.take(i as int + 1));
        i = i + 1;
    }
    v.push(93);
    proof {
        assert(loc@.take(loc@.len() as int) =~= loc@);
        assert(v@ =~= localized_name_key(loc@));
    }
    v
}

/// The line is a bracketed header.
fn is_header_line(l: &Vec<u8>) -> (r: bool)
    ensures
        r == is_header(l@),
{
    l.len() >= 2 && l[0] == 91 && l[l.len() - 1] == 93
}

/// The header line names this section.
fn header_names(l: &Vec<u8>, name: &Vec<u8>) -> (r: bool)
    requires
        is_header(l@),
    ensures
        r == (header_name(l@) == name@),
{
    if l.len() - 2 != name.len() {
        assert(header_name(l@).len() != name@.len());
        return false;
    }
    let mut j: usize = 0;
    while j < name.len()
        invariant
            j <= name.len(),
            is_header(l@),
            l@.len() == name@.len() + 2,
            forall|k: int| 0 <= k < j ==> l@[1 + k] == name@[k],
        decreases name.len() - j,
    {
        if l[1 + j] != name[j] {
            assert(header_name(l@)[j as int] != name@[j as int]);
            return false;
        }
        j = j + 1;
    }
    assert(header_name(l@) =~= name@);
    true
}

/// Split a `key=value` line on this exact key, handing back the value.
fn kv_split(l: &Vec<u8>, key: &Vec<u8>) -> (r: Option<Vec<u8>>)
    ensures
        match r {
            Some(v) => is_kv(l@, key@) && v@ == kv_value(l@, key@),
            None => !is_kv(l@, key@),
        },
{
    if l.len() <= key.len() {
        return None;
    }
    let mut j: usize = 0;
    while j < key.len()
        invariant
            j <= key.len(),
            l@.len() > key@.len(),
            forall|k: int| 0 <= k < j ==> l@[k] == key@[k],
        decreases key.len() - j,
    {
        if l[j] != key[j] {
            assert(l@.subrange(0, key@.len() as int)[j as int] != key@[j as int]);
            return None;
        }
        j = j + 1;
    }
    assert(l@.subrange(0, key@.len() as int) =~= key@);
    if l[key.len()] != 61 {
        return None;
    }
    let mut v: Vec<u8> = Vec::new();
    let mut t: usize = key.len() + 1;
    while t < l.len()
        invariant
            key@.len() + 1 <= t <= l@.len(),
            v@ == l@.subrange(key@.len() as int + 1, t as int),
        decreases l.len() - t,
    {
        v.push(l[t]);
        assert(l@.subrange(key@.len() as int + 1, t + 1) =~= l@.subrange(key@.len() as int + 1, t as int).push(
            l@[t as int],
        ));
        t = t + 1;
    }
    assert(is_kv(l@, key@));
    Some(v)
}

/// Find the first binding of `key` in the `Desktop Entry` section of these
/// lines.
fn lookup_value(lines: &Vec<Vec<u8>>, key: &Vec<u8>) -> (r: Option<Vec<u8>>)
    ensures
        match r {
            Some(v) => lookup_from(lines.deep_view(), key@, false) == Some(v@),
            None => lookup_from(lines.deep_view(), key@, false) is None,
        },
{
    let ghost full = lines.deep_view();
    let section = section_bytes();
    let mut in_sec = false;
    let mut i: usize = 0;
    proof {
        assert(full.skip(0) =~~= full);
    }
    while i < lines.len()
        invariant
            i <= lines.len(),
            full == lines.deep_view(),
            section@ == desktop_entry_section(),
            lookup_from(full, key@, false) == lookup_from(full.skip(i as int), key@, in_sec),
        decreases lines.len() - i,
    {
        let l = &lines[i];
        proof {
            assert(full.skip(i as int)[0] == l@);
            assert(full.skip(i as int).drop_first() =~~= full.skip(i as int + 1));
        }
        if is_header_line(l) {
            in_sec = header_names(l, &section);
        } else if in_sec {
            match kv_split(l, key) {
                Some(v) => {
                    return Some(v);
                },
                None => {},
            }
        }
        i = i + 1;
    }
    assert(full.skip(lines.len() as int).len() == 0);
    None
}

/// A looked-up name when present and nonempty, else the fallback.
fn pick_name_value(v: Option<Vec<u8>>, fallback: Vec<u8>) -> (r: Vec<u8>)
    ensures
        r@ == pick_name(v.deep_view(), fallback@),
{
    match v {
        Some(s) => if s.len() > 0 {
            s
        } else {
            fallback
        },
        None => fallback,
    }
}

/// Decode one descriptor text. `None` stands both for a descriptor without
/// a launch command and for one whose no-display flag is set; the caller
/// skips the file either way.
pub fn parse_descriptor(content: &Vec<u8>, locale: Option<&Vec<u8>>) -> (r: Option<
    ApplicationEntry,
>)
    ensures
        r is Some <==> spec_accepted(content@),
        r matches Some(e) ==> e@ == parse_data(content@, locale_view(locale)),
{
    let lines = split_on(content, 10);
    let ck = command_key_bytes();
    let command = match lookup_value(&lines, &ck) {
        Some(c) => c,
        None => {
            return None;
        },
    };
    let ndk = no_display_key_bytes();
    match lookup_value(&lines, &ndk) {
        Some(v) => {
            let t = true_value_bytes();
            if bytes_eq(&v, &t) {
                return None;
            }
        },
        None => {},
    }
    let nk = name_key_bytes();
    let unk = unknown_name_bytes();
    let plain = lookup_value(&lines, &nk);
    let base = pick_name_value(plain, unk);
    let name = match locale {
        Some(l) => {
            let lk = localized_name_key_bytes(l);
            let localized = lookup_value(&lines, &lk);
            pick_name_value(localized, base)
        },
        None => base,
    };
    let ik = icon_key_bytes();
    let icon = lookup_value(&lines, &ik);
    let catk = categories_key_bytes();
    let categories = match lookup_value(&lines, &catk) {
        Some(v) => {
            let parts = split_on(&v, 59);
            filter_nonempty(&parts)
        },
        None => Vec::new(),
    };
    let entry = ApplicationEntry { name, command, icon, categories };
    proof {
        let d = parse_data(content@, locale_view(locale));
        assert(entry@.name == d.name);
        assert(entry@.command == d.command);
        assert(entry@.icon == d.icon);
        assert(entry@.categories == d.categories);
        assert(entry@ == d);
    }
    Some(entry)
}

} // verus!
