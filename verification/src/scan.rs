//! The compute half of the application scanner: deciding which file names
//! are descriptor candidates and building the sorted catalog from the texts
//! the surrounding application has read. Reading directories and files is
//! filesystem work and stays outside the library; unreadable files simply
//! never reach `build_catalog`.

use vstd::prelude::*;

use crate::bytes::{ends_with, is_suffix_of};
use crate::catalog::{entry_wf, sort_entries, AppData, ApplicationEntry, Catalog};
use crate::parser::{
    command_key, locale_view, lookup_key, parse_data, parse_descriptor, spec_accepted,
    spec_no_display,
};
use crate::parser::lemma_spec_name_nonempty;

verus! {

/// File-name suffix of application descriptors: `.desktop`.
pub open spec fn descriptor_extension() -> Seq<u8> {
    seq![46, 100, 101, 115, 107, 116, 111, 112]
}

/// Only files carrying the descriptor extension are parsed at all.
pub fn is_descriptor_file(name: &Vec<u8>) -> (r: bool)
    ensures
        r == is_suffix_of(descriptor_extension(), name@),
{
    let ext: Vec<u8> = vec![46, 100, 101, 115, 107, 116, 111, 112];
    proof {
        assert(ext@ =~= descriptor_extension());
    }
    ends_with(name, &ext)
}

/// The entries that a list of descriptor texts yields, in text order:
/// accepted descriptors contribute their entry, the rest contribute nothing.
pub open spec fn parsed_entries(files: Seq<Seq<u8>>, loc: Option<Seq<u8>>) -> Seq<AppData>
    decreases files.len(),
{
    if files.len() == 0 {
        Seq::empty()
    } else {
        parsed_entries(files.drop_last(), loc) + if spec_accepted(files.last()) {
            seq![parse_data(files.last(), loc)]
        } else {
            Seq::<AppData>::empty()
        }
    }
}

/// Every entry a descriptor list yields is well formed.
pub proof fn lemma_parsed_entries_wf(files: Seq<Seq<u8>>, loc: Option<Seq<u8>>)
    ensures
        forall|m: int|
            0 <= m < parsed_entries(files, loc).len() ==> entry_wf(
                #[trigger] parsed_entries(files, loc)[m],
            ),
    decreases files.len(),
{
    if files.len() > 0 {
        lemma_parsed_entries_wf(files.drop_last(), loc);
        lemma_spec_name_nonempty(files.last(), loc);
        let prev = parsed_entries(files.drop_last(), loc);
        assert forall|m: int| 0 <= m < parsed_entries(files, loc).len() implies entry_wf(
            #[trigger] parsed_entries(files, loc)[m],
        ) by {
            if m < prev.len() {
                assert(parsed_entries(files, loc)[m] == prev[m]);
            } else {
                assert(parsed_entries(files, loc)[m] == parse_data(files.last(), loc));
            }
        }
    }
}

/// Every entry a descriptor list yields comes from an accepted descriptor of
/// that list.
pub proof fn lemma_parsed_entries_from(files: Seq<Seq<u8>>, loc: Option<Seq<u8>>)
    ensures
        forall|m: int|
            #![trigger parsed_entries(files, loc)[m]]
            0 <= m < parsed_entries(files, loc).len() ==> exists|k: int|
                0 <= k < files.len() && spec_accepted(files[k]) && parsed_entries(files, loc)[m]
                    == parse_data(files[k], loc),
    decreases files.len(),
{
    if files.len() > 0 {
        lemma_parsed_entries_from(files.drop_last(), loc);
        let prev = parsed_entries(files.drop_last(), loc);
        assert forall|m: int|
            0 <= m < parsed_entries(files, loc).len() implies exists|k: int|
            0 <= k < files.len() && spec_accepted(files[k]) && #[trigger] parsed_entries(
                files,
                loc,
            )[m] == parse_data(files[k], loc) by {
            if m < prev.len() {
                assert(parsed_entries(files, loc)[m] == prev[m]);
                let k0 = choose|k0: int|
                    0 <= k0 < files.drop_last().len() && spec_accepted(files.drop_last()[k0])
                        && prev[m] == parse_data(files.drop_last()[k0], loc);
                assert(files.drop_last()[k0] == files[k0]);
                assert(0 <= k0 < files.len() && spec_accepted(files[k0]) && parsed_entries(
                    files,
                    loc,
                )[m] == parse_data(files[k0], loc));
            } else {
                let k1 = files.len() - 1;
                assert(files.last() == files[k1]);
                assert(spec_accepted(files[k1]));
                assert(parsed_entries(files, loc)[m] == parse_data(files[k1], loc));
            }
        }
    }
}

/// Build the catalog from descriptor texts gathered in scan order: parse
/// each, keep what is accepted, and sort by name, case-insensitively.
/// Duplicate names are all retained.
pub fn build_catalog(files: &Vec<Vec<u8>>, locale: Option<&Vec<u8>>) -> (c: Catalog)
    ensures
        c@.to_multiset() == parsed_entries(files.deep_view(), locale_view(locale)).to_multiset(),
        c.wf(),
{
    let ghost all = files.deep_view();
    let ghost loc = locale_view(locale);
    let mut entries: Vec<ApplicationEntry> = Vec::new();
    let mut i: usize = 0;
    proof {
        assert(all.take(0).len() == 0);
        assert(entries.deep_view() =~= parsed_entries(all.take(0), loc));
    }
    while i < files.len()
        invariant
            i <= files.len(),
            all == files.deep_view(),
            loc == locale_view(locale),
            entries.deep_view() == parsed_entries(all.take(i as int), loc),
        decreases files.len() - i,
    {
        proof {
            assert(all.take(i as int + 1).drop_last() =~= all.take(i as int));
            assert(all.take(i as int + 1).last() == all[i as int]);
            assert(files@[i as int]@ == all[i as int]);
        }
        let ghost old_dv = entries.deep_view();
        match parse_descriptor(&files[i], locale) {
            Some(e) => {
                entries.push(e);
                assert(entries.deep_view() =~= old_dv.push(e@));
                assert(entries.deep_view() =~= parsed_entries(all.take(i as int + 1), loc));
            },
            None => {
                assert(entries.deep_view() =~= parsed_entries(all.take(i as int + 1), loc));
            },
        }
        i = i + 1;
    }
    proof {
        assert(all.take(files.len() as int) =~= all);
    }
    let ghost pre = entries.deep_view();
    sort_entries(&mut entries);
    let c = Catalog { entries };
    proof {
        broadcast use vstd::seq_lib::group_to_multiset_ensures;

        lemma_parsed_entries_wf(all, loc);
        assert forall|k: int| 0 <= k < c@.len() implies entry_wf(c@[k]) by {
            assert(c@.to_multiset().count(c@[k]) > 0);
            assert(pre.contains(c@[k]));
            let m = choose|m: int| 0 <= m < pre.len() && pre[m] == c@[k];
            assert(entry_wf(pre[m]));
        }
    }
    c
}

/// A descriptor with the no-display flag set contributes no entry, so no
/// catalog entry carries a launch command that only such descriptors
/// declare.
pub proof fn lemma_no_display_excluded(
    files: Seq<Seq<u8>>,
    loc: Option<Seq<u8>>,
    cmd: Seq<u8>,
    cat: Seq<AppData>,
)
    requires
        cat.to_multiset() == parsed_entries(files, loc).to_multiset(),
        forall|k: int|
            0 <= k < files.len() && lookup_key(#[trigger] files[k], command_key()) == Some(cmd)
                ==> spec_no_display(files[k]),
    ensures
        forall|j: int| 0 <= j < cat.len() ==> (#[trigger] cat[j]).command != cmd,
{
    lemma_parsed_entries_from(files, loc);
    let parsed = parsed_entries(files, loc);
    assert forall|j: int| 0 <= j < cat.len() implies (#[trigger] cat[j]).command != cmd by {
        broadcast use vstd::seq_lib::group_to_multiset_ensures;

        assert(cat.to_multiset().count(cat[j]) > 0);
        assert(parsed.contains(cat[j]));
        let m = choose|m: int| 0 <= m < parsed.len() && parsed[m] == cat[j];
        let k = choose|k: int|
            0 <= k < files.len() && spec_accepted(files[k]) && parsed[m] == parse_data(
                files[k],
                loc,
            );
        if cat[j].command == cmd {
            assert(lookup_key(files[k], command_key()).unwrap() == cmd);
            assert(lookup_key(files[k], command_key()) is Some);
            assert(lookup_key(files[k], command_key()) == Some(cmd));
            assert(spec_no_display(files[k]));
            assert(!spec_accepted(files[k]));
        }
    }
}

} // verus!
