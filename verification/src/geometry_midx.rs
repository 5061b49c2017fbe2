//! Which packs go into the multi-pack index after a geometric repack.

use crate::object_id::ObjectId;
use crate::order::sort_names;
use crate::order::stable_sort;
use crate::order::text_order;
use crate::order::texts;
use crate::pack_order::has_extension;
use crate::pack_order::is_extension;
use crate::text::concat2;
use crate::text::concat3;
use crate::text::hex;
use crate::text::text_eq;
use vstd::prelude::*;
use vstd::string::*;

verus! {

/// A file of a pack directory, and whether it belongs to a cruft pack.
pub struct DirectoryFile {
    pub name: String,
    pub is_cruft: bool,
}

/// The packs that go into a multi-pack index, by the names of their indexes,
/// and the one that it prefers.
#[derive(Debug, PartialEq, Eq)]
pub struct GeometricRepackMidxSelection {
    pub pack_names: Vec<String>,
    pub preferred_pack_name: Option<String>,
}

/// The names of the indexes of cruft packs, or of the others, as they stand.
pub open spec fn index_names(files: Seq<DirectoryFile>, cruft: bool) -> Seq<Seq<char>>
    decreases files.len(),
{
    if files.len() == 0 {
        Seq::empty()
    } else {
        let rest = index_names(files.drop_last(), cruft);
        let file = files.last();
        if has_extension(file.name@, ".idx"@) && file.is_cruft == cruft {
            rest.push(file.name@)
        } else {
            rest
        }
    }
}

/// The names of the indexes of packs with the given stems.
pub open spec fn stem_indexes(stems: Seq<String>) -> Seq<Seq<char>> {
    stems.map_values(|stem: String| stem@ + ".idx"@)
}

/// Whether the multi-pack index that is there names a pack that is neither an
/// ordinary one of the directory nor one that was rolled up.
pub open spec fn names_unknown_pack(
    existing: Option<Seq<Seq<char>>>,
    non_cruft: Seq<Seq<char>>,
    rolled_up: Seq<Seq<char>>,
) -> bool {
    existing matches Some(names) && exists|i: int|
        0 <= i < names.len() && !non_cruft.contains(#[trigger] names[i]) && !rolled_up.contains(names[i])
}

/// Whether cruft packs go in: where that was asked for, where the index that
/// is there needs them, and where nothing was repacked and there is none.
pub open spec fn takes_cruft(
    must: bool,
    existing: Option<Seq<Seq<char>>>,
    non_cruft: Seq<Seq<char>>,
    rolled_up: Seq<Seq<char>>,
    repacked: bool,
) -> bool {
    must || names_unknown_pack(existing, non_cruft, rolled_up) || (!repacked && existing is None)
}

/// The packs that go in, by name.
pub open spec fn selected_names(files: Seq<DirectoryFile>, with_cruft: bool) -> Seq<Seq<char>> {
    stable_sort(
        text_order(),
        index_names(files, false) + if with_cruft {
            index_names(files, true)
        } else {
            Seq::empty()
        },
    )
}

fn list_index_names(files: &Vec<DirectoryFile>, cruft: bool) -> (names: Vec<String>)
    ensures
        texts(names@) == index_names(files@, cruft),
{
    let mut names: Vec<String> = Vec::new();
    let mut i: usize = 0;
    assert(files@.take(0) =~= Seq::empty());
    assert(texts(names@) =~= Seq::empty());
    while i < files.len()
        invariant
            i <= files@.len(),
            texts(names@) == index_names(files@.take(i as int), cruft),
        decreases files@.len() - i,
    {
        let file = &files[i];
        assert(files@.take(i + 1).drop_last() =~= files@.take(i as int));
        assert(files@.take(i + 1).last() == file);
        if is_extension(file.name.as_str(), ".idx") && file.is_cruft == cruft {
            let ghost held = texts(names@);
            names.push(file.name.clone());
            assert(texts(names@) =~= held.push(file.name@));
        }
        i += 1;
    }
    assert(files@.take(i as int) =~= files@);
    names
}

fn lists(names: &Vec<String>, name: &str) -> (found: bool)
    ensures
        found == texts(names@).contains(name@),
{
    let mut i: usize = 0;
    while i < names.len()
        invariant
            i <= names@.len(),
            forall|k: int| 0 <= k < i ==> texts(names@)[k] != name@,
        decreases names@.len() - i,
    {
        if text_eq(names[i].as_str(), name) {
            assert(texts(names@)[i as int] == name@);
            return true;
        }
        i += 1;
    }
    false
}

pub open spec fn optional_texts(names: Option<&Vec<String>>) -> Option<Seq<Seq<char>>> {
    match names {
        Some(names) => Some(texts(names@)),
        None => None,
    }
}

/// The name of the index of the pack with a checksum.
pub open spec fn checksum_index(checksum: ObjectId) -> Seq<char> {
    "pack-"@ + hex(checksum.raw()) + ".idx"@
}

/// Selects the packs of the multi-pack index that is to follow a geometric
/// repack. `rolled_up_stems` names the packs that were rolled up, `written` is
/// the checksum of the new pack, if there is one, and `existing` lists the
/// packs of the index that is there.
pub fn geometric_repack_midx_selection(
    files: &Vec<DirectoryFile>,
    rolled_up_stems: &Vec<String>,
    written: Option<&ObjectId>,
    midx_must_contain_cruft: bool,
    existing: Option<&Vec<String>>,
) -> (selection: GeometricRepackMidxSelection)
    ensures
        ({
            let with_cruft = takes_cruft(
                midx_must_contain_cruft,
                optional_texts(existing),
                index_names(files@, false),
                stem_indexes(rolled_up_stems@),
                written is Some,
            );
            let names = selected_names(files@, with_cruft);
            &&& texts(selection.pack_names@) == names
            &&& match written {
                Some(checksum) => if names.contains(checksum_index(*checksum)) {
                    selection.preferred_pack_name matches Some(name) && name@ == checksum_index(*checksum)
                } else {
                    selection.preferred_pack_name is None
                },
                None => selection.preferred_pack_name is None,
            }
        }),
{
    let mut names = list_index_names(files, false);
    let mut rolled_up: Vec<String> = Vec::new();
    let mut i: usize = 0;
    assert(texts(rolled_up@) =~= stem_indexes(rolled_up_stems@.take(0)));
    while i < rolled_up_stems.len()
        invariant
            i <= rolled_up_stems@.len(),
            texts(rolled_up@) == stem_indexes(rolled_up_stems@.take(i as int)),
        decreases rolled_up_stems@.len() - i,
    {
        let ghost held = texts(rolled_up@);
        rolled_up.push(concat2(rolled_up_stems[i].as_str(), ".idx"));
        assert(texts(rolled_up@) =~= held.push(rolled_up_stems@[i as int]@ + ".idx"@));
        assert(texts(rolled_up@) =~= stem_indexes(rolled_up_stems@.take(i + 1)));
        i += 1;
    }
    assert(rolled_up_stems@.take(i as int) =~= rolled_up_stems@);
    let mut unknown = false;
    match existing {
        Some(known) => {
            let mut k: usize = 0;
            while k < known.len()
                invariant
                    k <= known@.len(),
                    unknown <==> exists|j: int|
                        0 <= j < k && !texts(names@).contains(#[trigger] texts(known@)[j]) && !texts(
                            rolled_up@,
                        ).contains(texts(known@)[j]),
                decreases known@.len() - k,
            {
                let name = known[k].as_str();
                assert(texts(known@)[k as int] == name@);
                if !lists(&names, name) && !lists(&rolled_up, name) {
                    unknown = true;
                }
                k += 1;
            }
        },
        None => {},
    }
    let with_cruft = midx_must_contain_cruft || unknown || (written.is_none() && existing.is_none());
    let ghost plain = texts(names@);
    proof {
        let known = optional_texts(existing);
        assert(unknown == names_unknown_pack(known, plain, texts(rolled_up@))) by {
            if let Some(listed) = existing {
                assert(known == Some(texts(listed@)));
                if names_unknown_pack(known, plain, texts(rolled_up@)) {
                    let j = choose|j: int|
                        0 <= j < texts(listed@).len() && !plain.contains(#[trigger] texts(listed@)[j]) && !texts(
                            rolled_up@,
                        ).contains(texts(listed@)[j]);
                    assert(0 <= j < listed@.len());
                }
            }
        }
    }
    if with_cruft {
        let mut cruft = list_index_names(files, true);
        let ghost more = texts(cruft@);
        names.append(&mut cruft);
        assert(texts(names@) =~= plain + more);
    } else {
        assert(texts(names@) =~= plain + Seq::<Seq<char>>::empty());
    }
    let pack_names = sort_names(&names);
    let preferred_pack_name = match written {
        Some(checksum) => {
            let text = checksum.to_hex();
            let name = concat3("pack-", text.as_str(), ".idx");
            if lists(&pack_names, name.as_str()) {
                Some(name)
            } else {
                None
            }
        },
        None => None,
    };
    GeometricRepackMidxSelection { pack_names, preferred_pack_name }
}

} // verus!
