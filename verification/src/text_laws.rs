//! How lists and headers in files are taken apart, in terms of their text.

use crate::alternates::colon_parts;
use crate::alternates::common_dir;
use crate::alternates::file_paths;
use crate::alternates::joined;
use crate::alternates::listed_paths;
use crate::error::GitError;
use crate::gc::planned_args;
use crate::gc::selected_mode;
use crate::gc::GcRepackMode;
use crate::gc::GcRepackPlanOptions;
use crate::geometry_midx::index_names;
use crate::geometry_midx::names_unknown_pack;
use crate::geometry_midx::selected_names;
use crate::geometry_midx::takes_cruft;
use crate::geometry_midx::DirectoryFile;
use crate::hex_id::has_hex_prefix;
use crate::hex_id::hex_bytes;
use crate::hex_id::hex_value;
use crate::hex_id::nibble;
use crate::loose::find_byte;
use crate::loose::parsed_object;
use crate::loose_read::corruption;
use crate::loose_read::is_loose_read;
use crate::midx_layer::known_hashes;
use crate::midx_layer::shorter;
use crate::midx_layer::with_hashes;
use crate::midx_layer::NameHashes;
use crate::object::digest;
use crate::object::framed;
use crate::object::EncodedObject;
use crate::object::ObjectType;
use crate::object_id::ObjectFormat;
use crate::object_id::ObjectId;
use crate::order::lemma_sort_contains;
use crate::order::lemma_text_order;
use crate::order::stable_sort;
use crate::order::text_order;
use crate::pack_file::entry_order;
use crate::pack_file::PackIndexEntry;
use crate::packed_read::has_id;
use crate::text::decimal;
use crate::text::digit_byte;
use crate::text::has_prefix;
use crate::text::has_suffix;
use crate::text_file::cache_budget;
use crate::text_file::is_space;
use crate::text_file::newline_parts;
use crate::text_file::trimmed;
use crate::text_file::trimmed_back;
use crate::text_file::trimmed_front;
use crate::text_file::trimmed_lines;
use crate::text_file::unsigned_value;
use vstd::prelude::*;
use vstd::utf8::*;

verus! {

/// Lines are what stands between newlines: behind a newline a line of its own
/// begins, and text without a newline is one line.
pub proof fn law_newlines_part_lines(lead: Seq<u8>, line: Seq<u8>)
    requires
        forall|i: int| 0 <= i < line.len() ==> #[trigger] line[i] != 10,
    ensures
        newline_parts(line) == seq![line],
        newline_parts(lead + seq![10u8] + line) == newline_parts(lead).push(line),
    decreases line.len(),
{
    let all = lead + seq![10u8] + line;
    if line.len() == 0 {
        assert(line =~= Seq::empty());
        assert(all.drop_last() =~= lead);
        assert(newline_parts(all) =~= newline_parts(lead).push(line));
        assert(newline_parts(line) =~= seq![line]);
    } else {
        let rest = line.drop_last();
        assert forall|i: int| 0 <= i < rest.len() implies #[trigger] rest[i] != 10 by {
            assert(line[i] == rest[i]);
        }
        law_newlines_part_lines(lead, rest);
        assert(line[line.len() - 1] == line.last());
        assert(all.drop_last() =~= lead + seq![10u8] + rest);
        assert(all.last() == line.last());
        assert(rest.push(line.last()) =~= line);
        assert(newline_parts(line) =~= seq![line]);
        assert(newline_parts(all) =~= newline_parts(lead).push(line));
    }
}

proof fn lemma_colons_part_paths(lead: Seq<char>, path: Seq<char>)
    requires
        forall|i: int| 0 <= i < path.len() ==> #[trigger] path[i] != ':',
    ensures
        colon_parts(path) == seq![path],
        colon_parts(lead + seq![':'] + path) == colon_parts(lead).push(path),
    decreases path.len(),
{
    let all = lead + seq![':'] + path;
    if path.len() == 0 {
        assert(path =~= Seq::empty());
        assert(all.drop_last() =~= lead);
        assert(colon_parts(all) =~= colon_parts(lead).push(path));
        assert(colon_parts(path) =~= seq![path]);
    } else {
        let rest = path.drop_last();
        assert forall|i: int| 0 <= i < rest.len() implies #[trigger] rest[i] != ':' by {
            assert(path[i] == rest[i]);
        }
        lemma_colons_part_paths(lead, rest);
        assert(path[path.len() - 1] == path.last());
        assert(all.drop_last() =~= lead + seq![':'] + rest);
        assert(all.last() == path.last());
        assert(rest.push(path.last()) =~= path);
        assert(colon_parts(path) =~= seq![path]);
        assert(colon_parts(all) =~= colon_parts(lead).push(path));
    }
}

/// A list of alternates names a path behind each colon, and a path that is empty
/// is passed over.
pub proof fn law_colons_part_alternates(lead: Seq<char>, path: Seq<char>)
    requires
        forall|i: int| 0 <= i < path.len() ==> #[trigger] path[i] != ':',
    ensures
        path.len() > 0 ==> listed_paths(path) == seq![path],
        path.len() > 0 ==> listed_paths(lead + seq![':'] + path) == listed_paths(lead).push(path),
        path.len() == 0 ==> listed_paths(path) == Seq::<Seq<char>>::empty(),
        path.len() == 0 ==> listed_paths(lead + seq![':'] + path) == listed_paths(lead),
{
    reveal(Seq::filter);
    lemma_colons_part_paths(lead, path);
    let keep = |part: Seq<char>| part.len() > 0;
    let parts = colon_parts(lead);
    assert(parts.push(path).drop_last() =~= parts);
    assert(seq![path].drop_last() =~= Seq::<Seq<char>>::empty());
    assert(Seq::<Seq<char>>::empty().filter(keep) =~= Seq::empty());
    assert(seq![path].filter(keep) =~= if path.len() > 0 {
        seq![path]
    } else {
        Seq::empty()
    });
}

/// Each line of an alternates file that holds text and does not begin with a
/// hash sign names a path, without a carriage return at its end; a relative path
/// is one below the object directory. Other lines are passed over.
pub proof fn law_lines_name_alternates(dir: Seq<char>, parts: Seq<Seq<u8>>, line: Seq<u8>)
    ensures
        line.len() == 0 || line[0] == 35 || line == seq![13u8] ==> file_paths(dir, parts.push(line)) == file_paths(
            dir,
            parts,
        ),
        line.len() > 0 && line[0] != 35 && line.last() != 13 && valid_utf8(line) ==> file_paths(dir, parts.push(line))
            == file_paths(dir, parts).push(joined(dir, decode_utf8(line))) && file_paths(
            dir,
            parts.push(line.push(13)),
        ) == file_paths(dir, parts).push(joined(dir, decode_utf8(line))),
        !valid_utf8(line) && line.len() > 0 && line.last() != 13 ==> file_paths(dir, parts.push(line)) == file_paths(
            dir,
            parts,
        ),
{
    assert(parts.push(line).drop_last() =~= parts);
    assert(parts.push(line.push(13)).drop_last() =~= parts);
    assert(line.push(13).drop_last() =~= line);
    if line.len() > 0 {
        assert(line.push(13)[0] == line[0]);
        if line[0] == 35 && line.last() == 13 {
            let bare = line.drop_last();
            assert(bare.len() > 0 ==> bare[0] == 35);
        }
    }
}

/// A path that begins with a slash stands for itself, and any other for one
/// below the directory, with one slash between them.
pub proof fn law_relative_paths_are_below(dir: Seq<char>, path: Seq<char>)
    ensures
        has_prefix(path, "/"@) ==> joined(dir, path) == path,
        !has_prefix(path, "/"@) && dir.len() > 0 && !has_suffix(dir, "/"@) ==> joined(dir, path) == dir + "/"@ + path,
        !has_prefix(path, "/"@) && has_suffix(dir, "/"@) ==> joined(dir, path) == dir + path,
{
}

/// An incremental garbage collection repacks nothing away. Any other that prunes
/// at once repacks what is reachable and drops the rest, unless expired cruft is
/// to be kept elsewhere. Of those that are left, one with cruft packs writes
/// them, and one without leaves unreachable objects loose.
pub proof fn law_mode_follows_options(options: GcRepackPlanOptions)
    ensures
        selected_mode(options) is Incremental <==> options.incremental,
        selected_mode(options) is Immediate <==> !options.incremental && (options.prune_expire matches Some(text)
            && text@ == "now"@) && !(options.cruft_packs && options.expire_to is Some),
        selected_mode(options) is Cruft ==> options.cruft_packs,
        selected_mode(options) is Reachable ==> !options.cruft_packs,
{
}

/// The arguments of every mode ask for a local repack that drops what it makes
/// superfluous. The time before which unreachable objects are given up, where
/// there is one, goes to the modes that keep the others, and filters to the
/// modes that take them.
pub proof fn law_arguments_follow_options(options: GcRepackPlanOptions)
    ensures
        ({
            let args = planned_args(options);
            let mode = selected_mode(options);
            &&& args.len() >= 4 && args[0] == "repack"@ && args[1] == "-d"@ && args[2] == "-l"@
            &&& args[3] == match mode {
                GcRepackMode::Incremental => "--no-write-bitmap-index"@,
                GcRepackMode::Immediate => "-a"@,
                GcRepackMode::Cruft => "--cruft"@,
                GcRepackMode::Reachable => "-A"@,
            }
            &&& mode is Incremental || mode is Immediate ==> args.len() == 4
            &&& (mode is Cruft && options.prune_expire is Some) ==> args[4] == "--cruft-expiration="@
                + options.prune_expire->Some_0@
            &&& (mode is Reachable && options.prune_expire is Some) ==> args[4] == "--unpack-unreachable="@
                + options.prune_expire->Some_0@
            &&& (mode is Cruft && options.max_cruft_size is Some) ==> args.contains(
                "--max-cruft-size="@ + decimal(options.max_cruft_size->Some_0 as nat),
            )
            &&& (mode is Cruft && options.expire_to is Some) ==> args.contains(
                "--expire-to="@ + options.expire_to->Some_0@,
            )
            &&& ((mode is Cruft || mode is Reachable) && options.repack_filter is Some) ==> args.contains(
                "--filter="@ + options.repack_filter->Some_0@,
            )
            &&& ((mode is Cruft || mode is Reachable) && options.repack_filter_to is Some) ==> args.last()
                == "--filter-to="@ + options.repack_filter_to->Some_0@
        }),
{
    let args = planned_args(options);
    let expire: int = if options.prune_expire is Some {
        1
    } else {
        0
    };
    let size: int = if options.max_cruft_size is Some {
        1
    } else {
        0
    };
    let to: int = if options.expire_to is Some {
        1
    } else {
        0
    };
    match selected_mode(options) {
        GcRepackMode::Cruft => {
            if options.max_cruft_size is Some {
                assert(args[4 + expire] == "--max-cruft-size="@ + decimal(options.max_cruft_size->Some_0 as nat));
            }
            if options.expire_to is Some {
                assert(args[4 + expire + size] == "--expire-to="@ + options.expire_to->Some_0@);
            }
            if options.repack_filter is Some {
                assert(args[4 + expire + size + to] == "--filter="@ + options.repack_filter->Some_0@);
            }
        },
        GcRepackMode::Reachable => {
            if options.repack_filter is Some {
                assert(args[4 + expire] == "--filter="@ + options.repack_filter->Some_0@);
            }
        },
        _ => {},
    }
}

proof fn lemma_index_names(files: Seq<DirectoryFile>, cruft: bool, name: Seq<char>)
    ensures
        index_names(files, cruft).contains(name) <==> exists|i: int|
            0 <= i < files.len() && (#[trigger] files[i]).name@ == name && files[i].is_cruft == cruft && has_suffix(
                name,
                ".idx"@,
            ) && name.len() > 4,
    decreases files.len(),
{
    reveal_strlit(".idx");
    if files.len() > 0 {
        let rest = files.drop_last();
        let last = files.len() - 1;
        lemma_index_names(rest, cruft, name);
        let before = index_names(rest, cruft);
        let after = index_names(files, cruft);
        assert(files[last] == files.last());
        if before.contains(name) {
            let k = choose|k: int| 0 <= k < before.len() && before[k] == name;
            assert(after[k] == name);
            let i = choose|i: int|
                0 <= i < rest.len() && (#[trigger] rest[i]).name@ == name && rest[i].is_cruft == cruft && has_suffix(
                    name,
                    ".idx"@,
                ) && name.len() > 4;
            assert(files[i] == rest[i]);
        }
        if after.contains(name) {
            let k = choose|k: int| 0 <= k < after.len() && after[k] == name;
            if k < before.len() {
                assert(before[k] == name);
            }
        }
        if exists|i: int|
            0 <= i < files.len() && (#[trigger] files[i]).name@ == name && files[i].is_cruft == cruft && has_suffix(
                name,
                ".idx"@,
            ) && name.len() > 4 {
            let i = choose|i: int|
                0 <= i < files.len() && (#[trigger] files[i]).name@ == name && files[i].is_cruft == cruft
                    && has_suffix(name, ".idx"@) && name.len() > 4;
            if i < last {
                assert(rest[i] == files[i]);
            } else {
                assert(after[before.len() as int] == name);
            }
        }
    }
}

/// A multi-pack index after a geometric repack takes in every pack of the
/// directory that has an index, cruft packs only where it is to.
pub proof fn law_multi_pack_index_takes_every_pack(files: Seq<DirectoryFile>, with_cruft: bool, name: Seq<char>)
    ensures
        selected_names(files, with_cruft).contains(name) <==> exists|i: int|
            0 <= i < files.len() && (#[trigger] files[i]).name@ == name && (with_cruft || !files[i].is_cruft)
                && has_suffix(name, ".idx"@) && name.len() > 4,
{
    lemma_index_names(files, false, name);
    lemma_index_names(files, true, name);
    let plain = index_names(files, false);
    let cruft = if with_cruft {
        index_names(files, true)
    } else {
        Seq::empty()
    };
    let all = plain + cruft;
    lemma_text_order();
    lemma_sort_contains(text_order(), all, name);
    if plain.contains(name) {
        let k = choose|k: int| 0 <= k < plain.len() && plain[k] == name;
        assert(all[k] == name);
        let i = choose|i: int|
            0 <= i < files.len() && (#[trigger] files[i]).name@ == name && files[i].is_cruft == false && has_suffix(
                name,
                ".idx"@,
            ) && name.len() > 4;
        assert(files[i].name@ == name);
    }
    if cruft.contains(name) {
        let k = choose|k: int| 0 <= k < cruft.len() && cruft[k] == name;
        assert(all[plain.len() + k] == name);
        let i = choose|i: int|
            0 <= i < files.len() && (#[trigger] files[i]).name@ == name && files[i].is_cruft == true && has_suffix(
                name,
                ".idx"@,
            ) && name.len() > 4;
        assert(files[i].name@ == name);
    }
    if all.contains(name) {
        let k = choose|k: int| 0 <= k < all.len() && all[k] == name;
        if k < plain.len() {
            assert(plain[k] == name);
        } else {
            assert(cruft[k - plain.len()] == name);
        }
    }
    if exists|i: int|
        0 <= i < files.len() && (#[trigger] files[i]).name@ == name && (with_cruft || !files[i].is_cruft)
            && has_suffix(name, ".idx"@) && name.len() > 4 {
        let i = choose|i: int|
            0 <= i < files.len() && (#[trigger] files[i]).name@ == name && (with_cruft || !files[i].is_cruft)
                && has_suffix(name, ".idx"@) && name.len() > 4;
        assert(files[i].is_cruft == true || files[i].is_cruft == false);
    }
}

/// Cruft packs go into the index where that is asked for, where nothing was
/// repacked and there is no index yet, and where the index there is names a pack
/// that is neither an ordinary one nor rolled up; nowhere else.
pub proof fn law_cruft_goes_into_the_index(
    must: bool,
    existing: Option<Seq<Seq<char>>>,
    non_cruft: Seq<Seq<char>>,
    rolled_up: Seq<Seq<char>>,
    repacked: bool,
)
    ensures
        must ==> takes_cruft(must, existing, non_cruft, rolled_up, repacked),
        !must && existing is None ==> takes_cruft(must, existing, non_cruft, rolled_up, repacked) == !repacked,
        !must && existing is Some ==> (takes_cruft(must, existing, non_cruft, rolled_up, repacked) <==> exists|
            name: Seq<char>,
        | #[trigger]
            existing->Some_0.contains(name) && !non_cruft.contains(name) && !rolled_up.contains(name)),
{
    if let Some(names) = existing {
        if names_unknown_pack(existing, non_cruft, rolled_up) {
            let i = choose|i: int|
                0 <= i < names.len() && !non_cruft.contains(#[trigger] names[i]) && !rolled_up.contains(names[i]);
            assert(names.contains(names[i]));
        }
        if exists|name: Seq<char>| #[trigger]
            names.contains(name) && !non_cruft.contains(name) && !rolled_up.contains(name) {
            let name = choose|name: Seq<char>| #[trigger]
                names.contains(name) && !non_cruft.contains(name) && !rolled_up.contains(name);
            let i = choose|i: int| 0 <= i < names.len() && names[i] == name;
            assert(!non_cruft.contains(names[i]));
        }
    }
}

proof fn lemma_with_hashes(known: Map<ObjectId, u32>, entries: Seq<PackIndexEntry>, cache: Seq<u32>, n: nat)
    requires
        n <= entries.len(),
        n <= cache.len(),
    ensures
        forall|oid: ObjectId| #[trigger]
            known.contains_key(oid) ==> with_hashes(known, entries, cache, n).contains_key(oid) && with_hashes(
                known,
                entries,
                cache,
                n,
            )[oid] == known[oid],
        forall|i: int|
            0 <= i < n && !known.contains_key((#[trigger] entries[i]).oid) && (forall|j: int|
                0 <= j < i ==> (#[trigger] entries[j]).oid != entries[i].oid) ==> with_hashes(
                known,
                entries,
                cache,
                n,
            ).contains_key(entries[i].oid) && with_hashes(known, entries, cache, n)[entries[i].oid] == cache[i],
        forall|oid: ObjectId| #[trigger]
            with_hashes(known, entries, cache, n).contains_key(oid) ==> known.contains_key(oid) || exists|i: int|
                0 <= i < n && (#[trigger] entries[i]).oid == oid,
    decreases n,
{
    if n > 0 {
        lemma_with_hashes(known, entries, cache, (n - 1) as nat);
        let before = with_hashes(known, entries, cache, (n - 1) as nat);
        let last = entries[n - 1];
        if !known.contains_key(last.oid) && before.contains_key(last.oid) {
            let i = choose|i: int| 0 <= i < n - 1 && (#[trigger] entries[i]).oid == last.oid;
            assert(entries[i].oid == entries[n - 1].oid);
        }
    }
}

/// The name hashes of a further pack are taken for the objects that no pack
/// before it gave one for: the hashes stand in the order of ids.
pub proof fn law_first_name_hash_counts(packs: Seq<NameHashes>, pack: NameHashes)
    ensures
        ({
            let known = known_hashes(packs);
            let all = known_hashes(packs.push(pack));
            let entries = stable_sort(entry_order(), pack.entries@);
            &&& forall|oid: ObjectId| #[trigger] known.contains_key(oid) ==> all.contains_key(oid) && all[oid]
                == known[oid]
            &&& forall|i: int|
                0 <= i < entries.len() && i < pack.cache@.len() && !known.contains_key((#[trigger] entries[i]).oid) && (
                forall|j: int| 0 <= j < i ==> (#[trigger] entries[j]).oid != entries[i].oid) ==> all.contains_key(
                    entries[i].oid,
                ) && all[entries[i].oid] == pack.cache@[i]
            &&& forall|oid: ObjectId| #[trigger]
                all.contains_key(oid) ==> known.contains_key(oid) || exists|i: int|
                    0 <= i < entries.len() && i < pack.cache@.len() && (#[trigger] entries[i]).oid == oid
        }),
{
    let entries = stable_sort(entry_order(), pack.entries@);
    assert(packs.push(pack).drop_last() =~= packs);
    lemma_with_hashes(known_hashes(packs), entries, pack.cache@, shorter(entries.len(), pack.cache@.len()));
}

proof fn lemma_find_byte(bytes: Seq<u8>, byte: u8, from: int)
    requires
        0 <= from,
    ensures
        match find_byte(bytes, byte, from) {
            Some(at) => from <= at < bytes.len() && bytes[at] == byte && forall|i: int|
                from <= i < at ==> #[trigger] bytes[i] != byte,
            None => forall|i: int| from <= i < bytes.len() ==> #[trigger] bytes[i] != byte,
        },
    decreases bytes.len() - from,
{
    if from < bytes.len() && bytes[from] != byte {
        lemma_find_byte(bytes, byte, from + 1);
    }
}

/// What is read as an object is one: it begins with the name of the type and a
/// space, a number follows up to the first zero byte, and behind that stand just
/// as many bytes as the number says, the body. Where the space and the zero byte
/// are is handed back.
pub proof fn law_parsed_object_is_framed(framed: Seq<u8>) -> (at: (int, int))
    requires
        parsed_object(framed) is Some,
    ensures
        0 <= at.0 < at.1 < framed.len(),
        framed[at.0] == 32,
        framed[at.1] == 0,
        forall|i: int| 0 <= i < at.1 ==> #[trigger] framed[i] != 0,
        framed.take(at.0) == match parsed_object(framed)->Some_0.0 {
            ObjectType::Commit => seq![99u8, 111, 109, 109, 105, 116],
            ObjectType::Tree => seq![116u8, 114, 101, 101],
            ObjectType::Blob => seq![98u8, 108, 111, 98],
            ObjectType::Tag => seq![116u8, 97, 103],
        },
        unsigned_value(framed.subrange(at.0 + 1, at.1)) == Some(parsed_object(framed)->Some_0.1.len()),
        parsed_object(framed)->Some_0.1 == framed.skip(at.1 + 1),
{
    lemma_find_byte(framed, 0, 0);
    let nul = find_byte(framed, 0, 0)->Some_0;
    let header = framed.take(nul);
    lemma_find_byte(header, 32, 0);
    let space = find_byte(header, 32, 0)->Some_0;
    assert(framed[space] == header[space]);
    assert(header.take(space) =~= framed.take(space));
    assert(header.skip(space + 1) =~= framed.subrange(space + 1, nul));
    (space, nul)
}

proof fn lemma_hex_value(digit: int)
    requires
        0 <= digit < 16,
    ensures
        hex_value(digit_byte(digit)) == Some(digit as u8),
{
}

/// Digits match an object where its id, written in hex, begins with them; in
/// which case letters are written makes no difference.
pub proof fn law_prefix_is_that_of_the_hex_id(raw: Seq<u8>, digits: Seq<u8>)
    requires
        digits.len() <= 2 * raw.len(),
    ensures
        has_hex_prefix(raw, digits) <==> forall|i: int|
            0 <= i < digits.len() ==> {
                ||| #[trigger] digits[i] == hex_bytes(raw)[i]
                ||| 65 <= digits[i] <= 70 && digits[i] + 32 == hex_bytes(raw)[i]
            },
{
    let id = hex_bytes(raw);
    assert forall|i: int| 0 <= i < digits.len() implies (hex_value(#[trigger] digits[i]) == Some(nibble(raw, i)) <==> {
        ||| digits[i] == id[i]
        ||| 65 <= digits[i] <= 70 && digits[i] + 32 == id[i]
    }) by {
        let byte = raw[i / 2] as int;
        if i % 2 == 0 {
            lemma_hex_value(byte / 16);
        } else {
            lemma_hex_value(byte % 16);
        }
        let d = nibble(raw, i) as int;
        assert(0 <= d < 16 && id[i] == digit_byte(d));
    }
}

/// Trimming takes off the spaces at both ends of a text and nothing else.
pub proof fn law_trimming_takes_off_spaces(front: Seq<char>, text: Seq<char>, back: Seq<char>)
    requires
        forall|i: int| 0 <= i < front.len() ==> is_space(#[trigger] front[i]),
        forall|i: int| 0 <= i < back.len() ==> is_space(#[trigger] back[i]),
        text.len() > 0 ==> !is_space(text[0]) && !is_space(text.last()),
    ensures
        trimmed(front + text + back) == text,
{
    lemma_trimmed_front(front, text, back);
    if text.len() > 0 {
        assert((text + back)[0] == text[0]);
        lemma_trimmed_back(text, back);
    } else {
        assert(text =~= Seq::empty());
        lemma_trimmed_back(text, back);
        if back.len() > 0 {
            lemma_all_trimmed(back);
        }
    }
}

proof fn lemma_all_trimmed(spaces: Seq<char>)
    requires
        forall|i: int| 0 <= i < spaces.len() ==> is_space(#[trigger] spaces[i]),
    ensures
        trimmed_front(spaces) == Seq::<char>::empty(),
    decreases spaces.len(),
{
    if spaces.len() > 0 {
        assert(is_space(spaces[0]));
        let rest = spaces.drop_first();
        assert forall|i: int| 0 <= i < rest.len() implies is_space(#[trigger] rest[i]) by {
            assert(rest[i] == spaces[i + 1]);
        }
        lemma_all_trimmed(rest);
    } else {
        assert(spaces =~= Seq::empty());
    }
}

proof fn lemma_trimmed_front(front: Seq<char>, text: Seq<char>, back: Seq<char>)
    requires
        forall|i: int| 0 <= i < front.len() ==> is_space(#[trigger] front[i]),
    ensures
        trimmed_front(front + text + back) == trimmed_front(text + back),
    decreases front.len(),
{
    let all = front + text + back;
    if front.len() > 0 {
        assert(is_space(front[0]));
        assert(all[0] == front[0]);
        let rest = front.drop_first();
        assert forall|i: int| 0 <= i < rest.len() implies is_space(#[trigger] rest[i]) by {
            assert(rest[i] == front[i + 1]);
        }
        assert(all.drop_first() =~= rest + text + back);
        lemma_trimmed_front(rest, text, back);
    } else {
        assert(all =~= text + back);
    }
}

proof fn lemma_trimmed_back(text: Seq<char>, back: Seq<char>)
    requires
        forall|i: int| 0 <= i < back.len() ==> is_space(#[trigger] back[i]),
        text.len() > 0 ==> !is_space(text.last()),
    ensures
        trimmed_back(text + back) == text,
    decreases back.len(),
{
    let all = text + back;
    if back.len() > 0 {
        assert(is_space(back[back.len() - 1]));
        assert(all.last() == back.last());
        let rest = back.drop_last();
        assert forall|i: int| 0 <= i < rest.len() implies is_space(#[trigger] rest[i]) by {
            assert(rest[i] == back[i]);
        }
        assert(all.drop_last() =~= text + rest);
        lemma_trimmed_back(text, rest);
    } else {
        assert(all =~= text);
    }
}

/// The size of a cache is the number that is asked for, written in digits, with
/// spaces around it or not; where none is, the default.
pub proof fn law_cache_size_is_as_asked(value: Option<Seq<char>>, default: usize)
    ensures
        value is None ==> cache_budget(value, default) == default,
        value matches Some(text) ==> match unsigned_value(encode_utf8(trimmed(text))) {
            Some(size) => size <= usize::MAX ==> cache_budget(value, default) == size,
            None => cache_budget(value, default) == default,
        },
{
}

/// The common directory of a repository is the one named, else the one that its
/// file gives, relative to the repository, else the repository itself.
pub proof fn law_common_dir_is_named_or_given(git_dir: Seq<char>, named: Option<Seq<char>>, file: Option<Seq<u8>>)
    ensures
        named matches Some(dir) ==> common_dir(git_dir, named, file) == dir,
        named is None && file is None ==> common_dir(git_dir, named, file) == git_dir,
        named is None ==> (file matches Some(bytes) ==> (valid_utf8(bytes) ==> common_dir(git_dir, named, file)
            == joined(git_dir, trimmed(decode_utf8(bytes))))),
{
}

/// Each line of a list counts without the spaces around it; an empty one does
/// not count.
pub proof fn law_lines_count_without_spaces(parts: Seq<Seq<u8>>, line: Seq<u8>)
    requires
        valid_utf8(line),
    ensures
        trimmed(decode_utf8(line)).len() == 0 ==> trimmed_lines(parts.push(line)) == trimmed_lines(parts),
        trimmed(decode_utf8(line)).len() > 0 ==> trimmed_lines(parts.push(line)) == trimmed_lines(parts).push(
            trimmed(decode_utf8(line)),
        ),
{
    assert(parts.push(line).drop_last() =~= parts);
}

/// A verified loose object is the one that its id names: a read hands on the
/// type and body of a whole frame, and where it verifies the digest of the frame
/// is the id.
pub proof fn law_verified_read_is_what_the_id_names(
    read: Result<(ObjectType, Vec<u8>), GitError>,
    format: ObjectFormat,
    oid: ObjectId,
    path: Seq<char>,
    complete: bool,
    inflated: Seq<u8>,
    verify: bool,
)
    requires
        is_loose_read(read, format, oid, path, complete, inflated, verify),
        read is Ok,
    ensures
        complete,
        parsed_object(inflated) == Some((read->Ok_0.0, read->Ok_0.1@)),
        verify ==> oid.spec_format() == format && oid.raw() == digest(
            format,
            framed(read->Ok_0.0, read->Ok_0.1@),
        ),
{
}

/// A loose object that is not corrupt is a whole frame: its stream is complete,
/// with nothing behind it, and its header ends within thirty-two bytes.
pub proof fn law_sound_object_is_whole(
    oid: ObjectId,
    display_path: Seq<char>,
    compressed: Seq<u8>,
    complete: bool,
    inflated: Seq<u8>,
    consumed: u64,
)
    requires
        corruption(oid, display_path, compressed, complete, inflated, consumed) is None,
    ensures
        complete,
        consumed >= compressed.len(),
        parsed_object(inflated) is Some,
        find_byte(inflated, 0, 0) matches Some(nul) && nul < 32,
{
}

/// A packed object has its id where the digest of its frame is the id.
pub proof fn law_packed_object_has_its_id(object: EncodedObject, format: ObjectFormat, oid: ObjectId)
    ensures
        has_id(object, format, oid) <==> oid.spec_format() == format && oid.raw() == digest(
            format,
            framed(object.spec_type(), object.body@),
        ),
{
}

} // verus!
