//! What packing and unpacking have to do with each other.

use vstd::prelude::*;
use crate::archive::sub_archive::{container_header, container_iv, container_payload};
use crate::archive::sub_archive::{destination, entry_matches, entry_payload, within};
use crate::archive::Container;
use crate::unpack::{container_is_whole, unpacked_archive};
use vstd::seq_lib::lemma_multiset_commutative;
use crate::archive::sub_archive::{first_match, open_error, unpacked_entry, FileView, PREAMBLE_LEN};
use crate::crypto::{apply_keystream, lemma_decrypt_encrypt, KEYSTREAM_LEN};
use crate::header::format::{header_bytes, header_fits};
use crate::header::format::{slot_filled, sources_size, HeaderRecord};
use crate::header::format::{lemma_fill_keeps_sources_size, lemma_header_size_exact};
use crate::header::format::lemma_parse_header_bytes;
use crate::header::skeleton_of;
use crate::index::{Entries, SourceFiles, Sources};
use crate::pack::{container_bytes, files_payload, filled, pack_error, packed_header, payload_bytes};
use crate::pack::{lemma_filled_all, lemma_packed_file_sizes, lemma_packed_sizes};
use crate::pack::lemma_payload_room;
use crate::sorted::{lemma_sorted_unique, Keyed};
use crate::BKY_HEADER;

verus! {

/// A container that was put together from a header and a payload opens with
/// the same key to that header and that payload.
pub proof fn lemma_open_packed(key: Seq<u8>, iv: Seq<u8>, header: HeaderRecord, payload: Seq<u8>)
    requires
        header_fits(header),
        iv.len() == 24,
        header_bytes(header).len() + payload.len() <= KEYSTREAM_LEN,
    ensures
        open_error(container_bytes(key, iv, header, payload), key) is None,
        container_header(container_bytes(key, iv, header, payload), key) == header,
        container_payload(container_bytes(key, iv, header, payload), key) == payload,
{
    let plaintext = header_bytes(header) + payload;
    let cipher = apply_keystream(key, iv, 0, plaintext);
    let container = container_bytes(key, iv, header, payload);
    assert(BKY_HEADER@.len() == 19);
    assert(container.take(19) =~= BKY_HEADER@);
    assert(container_iv(container) =~= iv);
    assert(container.skip(PREAMBLE_LEN as int) =~= cipher);
    lemma_decrypt_encrypt(key, iv, 0, plaintext);
    lemma_parse_header_bytes(header, payload);
    assert(plaintext.skip(header_bytes(header).len() as int) =~= payload);
}

/// The contents of file `j` of source `i` stand in the payload at the sum of
/// the lengths of the files before it.
pub proof fn lemma_payload_slice(contents: Seq<Seq<Seq<u8>>>, i: int, j: int)
    requires
        0 <= i < contents.len(),
        0 <= j < contents[i].len(),
    ensures
        ({
            let from = (payload_bytes(contents.take(i)).len() + files_payload(
                contents[i].take(j),
            ).len()) as int;
            &&& from + contents[i][j].len() <= payload_bytes(contents).len()
            &&& payload_bytes(contents).subrange(from, from + contents[i][j].len()) == contents[i][j]
        }),
    decreases contents.len(),
{
    let last = contents.len() - 1;
    let from = (payload_bytes(contents.take(i)).len() + files_payload(contents[i].take(j)).len()) as int;
    lemma_payload_room(contents, i, j);
    if i == last {
        assert(contents.take(i) =~= contents.drop_last());
        lemma_files_slice(contents[i], j);
        assert(payload_bytes(contents).subrange(from, from + contents[i][j].len())
            =~= files_payload(contents[i]).subrange(
            files_payload(contents[i].take(j)).len() as int,
            files_payload(contents[i].take(j)).len() as int + contents[i][j].len(),
        ));
    } else {
        let front = contents.drop_last();
        assert(front.take(i) =~= contents.take(i));
        assert(front[i] == contents[i]);
        lemma_payload_slice(front, i, j);
        assert(payload_bytes(contents).subrange(from, from + contents[i][j].len())
            =~= payload_bytes(front).subrange(from, from + contents[i][j].len()));
    }
}

/// The contents of file `j` stand among those of its source at the sum of
/// the lengths of the files before it.
pub proof fn lemma_files_slice(files: Seq<Seq<u8>>, j: int)
    requires
        0 <= j < files.len(),
    ensures
        ({
            let from = files_payload(files.take(j)).len() as int;
            &&& from + files[j].len() <= files_payload(files).len()
            &&& files_payload(files).subrange(from, from + files[j].len()) == files[j]
        }),
    decreases files.len(),
{
    let last = files.len() - 1;
    let from = files_payload(files.take(j)).len() as int;
    if j == last {
        assert(files.take(j) =~= files.drop_last());
        assert(files_payload(files).subrange(from, from + files[j].len()) =~= files[j]);
    } else {
        let front = files.drop_last();
        assert(front.take(j) =~= files.take(j));
        assert(front[j] == files[j]);
        lemma_files_slice(front, j);
        assert(files_payload(files).subrange(from, from + files[j].len()) =~= files_payload(
            front,
        ).subrange(from, from + files[j].len()));
    }
}

/// Round trip: what was packed opens with the same key, to the header that
/// was packed; its payload holds all that the header lists; and every file
/// unpacks under the path it had, with the contents it had.
pub proof fn lemma_unpack_pack(
    sources: Seq<SourceFiles>,
    contents: Seq<Seq<Seq<u8>>>,
    is_single_source: bool,
    key: Seq<u8>,
    iv: Seq<u8>,
    out: Seq<char>,
    i: int,
    j: int,
)
    requires
        pack_error(sources, contents, is_single_source) is None,
        header_fits(packed_header(sources, contents, is_single_source)),
        iv.len() == 24,
        0 <= i < sources.len(),
        0 <= j < sources[i].files.len(),
    ensures
        ({
            let header = packed_header(sources, contents, is_single_source);
            let container = container_bytes(key, iv, header, payload_bytes(contents));
            &&& open_error(container, key) is None
            &&& container_header(container, key) == header
            &&& container_payload(container, key) == payload_bytes(contents)
            &&& sources_size(header.sources) == payload_bytes(contents).len()
            &&& within(header, payload_bytes(contents).len() as int, i, j)
            &&& unpacked_entry(header, payload_bytes(contents), out, i, j) == (FileView {
                path: destination(
                    out,
                    sources[i].source.id,
                    sources[i].files[j].path,
                    is_single_source,
                ),
                contents: contents[i][j],
            })
        }),
{
    let header = packed_header(sources, contents, is_single_source);
    let payload = payload_bytes(contents);
    let skeleton = skeleton_of(sources, is_single_source);
    let complete = filled(sources, contents, is_single_source, sources.len() as int, 0);
    lemma_filled_all(sources, contents, is_single_source);
    assert forall|a: int, b: int|
        0 <= a < complete.sources.len() && 0 <= b < complete.sources[a].slots.len() implies slot_filled(
        #[trigger] complete.sources[a].slots[b],
    ) by {
        assert(crate::header::format::source_fits(header.sources[a]));
        assert(crate::header::format::entry_fits(header.sources[a].entries[b]));
    }
    lemma_fill_keeps_sources_size(skeleton.sources, complete.sources);
    assert forall|a: int| 0 <= a < complete.sources.len() implies crate::header::format::slots_fit(
        #[trigger] complete.sources[a],
    ) by {
        assert(crate::header::format::slots_fit(skeleton.sources[a]));
        assert forall|b: int| 0 <= b < complete.sources[a].slots.len() implies crate::header::format::text_fits(
            (#[trigger] complete.sources[a].slots[b]).path,
        ) by {
            assert(crate::header::format::text_fits(skeleton.sources[a].slots[b].path));
        }
    }
    lemma_header_size_exact(complete);
    lemma_open_packed(key, iv, header, payload);
    lemma_packed_sizes(sources, contents, is_single_source, sources.len() as int);
    assert(header.sources.take(sources.len() as int) =~= header.sources);
    assert(contents.take(sources.len() as int) =~= contents);
    lemma_packed_sizes(sources, contents, is_single_source, i);
    lemma_packed_file_sizes(sources, contents, is_single_source, i, j);
    lemma_payload_slice(contents, i, j);
}

/// No two entries of the header share both the id of their source and their
/// path.
pub open spec fn distinct_entries(header: HeaderRecord) -> bool {
    forall|a: int, b: int, c: int, d: int|
        0 <= a < header.sources.len() && 0 <= b < header.sources[a].entries.len() && 0 <= c
            < header.sources.len() && 0 <= d < header.sources[c].entries.len()
            && header.sources[a].id == header.sources[c].id && (
        #[trigger] header.sources[a].entries[b]).path == (
        #[trigger] header.sources[c].entries[d]).path ==> a == c && b == d
}

/// Random-access equivalence: in a header whose entries are distinct, the
/// entry that is fetched for a source's id and an entry's path is that very
/// entry; so what is fetched for it is the payload that unpacking gives the
/// file.
pub proof fn lemma_get_file_is_unpacked(header: HeaderRecord, i: int, j: int)
    requires
        distinct_entries(header),
        0 <= i < header.sources.len(),
        0 <= j < header.sources[i].entries.len(),
    ensures
        first_match(header, Some(header.sources[i].id), header.sources[i].entries[j].path, i, j),
        forall|a: int, b: int|
            first_match(
                header,
                Some(header.sources[i].id),
                header.sources[i].entries[j].path,
                a,
                b,
            ) ==> a == i && b == j,
{
    let id = Some(header.sources[i].id);
    let path = header.sources[i].entries[j].path;
    assert forall|a: int, b: int| #[trigger] entry_matches(header, id, path, a, b) implies a == i
        && b == j by {
        assert(header.sources[a].entries[b].path == header.sources[i].entries[j].path);
    }
}

/// The entries of a header that was packed from an index are distinct.
pub proof fn lemma_packed_distinct(
    sources: Sources,
    contents: Seq<Seq<Seq<u8>>>,
    is_single_source: bool,
)
    requires
        sources.wf(),
    ensures
        distinct_entries(packed_header(sources@, contents, is_single_source)),
{
    let header = packed_header(sources@, contents, is_single_source);
    let items = sources.items();
    assert forall|a: int, b: int, c: int, d: int|
        0 <= a < header.sources.len() && 0 <= b < header.sources[a].entries.len() && 0 <= c
            < header.sources.len() && 0 <= d < header.sources[c].entries.len()
            && header.sources[a].id == header.sources[c].id && (
        #[trigger] header.sources[a].entries[b]).path == (
        #[trigger] header.sources[c].entries[d]).path implies a == c && b == d by {
        assert(sources@[a] == items[a]@);
        assert(sources@[c] == items[c]@);
        lemma_sorted_unique(items, a, c);
        assert(items[a].wf());
        match items[a].entries {
            Entries::Directory(files) => {
                assert(files@[b].key() == header.sources[a].entries[b].path);
                assert(files@[d].key() == header.sources[a].entries[d].path);
                lemma_sorted_unique(files@, b, d);
            },
            Entries::File(_) => {},
        }
    }
}

/// Random-access correctness: in a container that was packed from an index,
/// the first entry found for the path of a file, in its source or in any
/// where the container holds one source only, is that file's entry; it lies
/// within the payload, and its payload is the contents of that file and of
/// no other.
pub proof fn lemma_fetch_packed(
    sources: Sources,
    contents: Seq<Seq<Seq<u8>>>,
    is_single_source: bool,
    key: Seq<u8>,
    iv: Seq<u8>,
    wanted: Option<Seq<char>>,
    i: int,
    j: int,
    a: int,
    b: int,
)
    requires
        sources.wf(),
        pack_error(sources@, contents, is_single_source) is None,
        header_fits(packed_header(sources@, contents, is_single_source)),
        iv.len() == 24,
        0 <= i < sources@.len(),
        0 <= j < sources@[i].files.len(),
        wanted == Some(sources@[i].source.id) || (wanted is None && sources@.len() == 1),
        first_match(
            packed_header(sources@, contents, is_single_source),
            wanted,
            sources@[i].files[j].path,
            a,
            b,
        ),
    ensures
        ({
            let header = packed_header(sources@, contents, is_single_source);
            let container = container_bytes(key, iv, header, payload_bytes(contents));
            &&& open_error(container, key) is None
            &&& container_header(container, key) == header
            &&& container_payload(container, key) == payload_bytes(contents)
            &&& a == i && b == j
            &&& within(header, payload_bytes(contents).len() as int, a, b)
            &&& entry_payload(header, payload_bytes(contents), a, b) == contents[i][j]
        }),
{
    let header = packed_header(sources@, contents, is_single_source);
    lemma_unpack_pack(sources@, contents, is_single_source, key, iv, Seq::empty(), i, j);
    lemma_packed_distinct(sources, contents, is_single_source);
    assert(header.sources[a].id == header.sources[i].id);
    assert(header.sources[a].entries[b].path == header.sources[i].entries[j].path);
}

/// What follows when the containers of `first` are unpacked and then those
/// of `second` is what each of the two unpacks to, one behind the other.
pub proof fn lemma_unpacked_concat(
    first: Seq<Container>,
    second: Seq<Container>,
    key: Seq<u8>,
    out: Seq<char>,
    n: int,
)
    requires
        0 <= n <= second.len(),
    ensures
        unpacked_archive(first + second, key, out, first.len() + n) == unpacked_archive(
            first,
            key,
            out,
            first.len() as int,
        ) + unpacked_archive(second, key, out, n),
    decreases n,
{
    let all = first + second;
    if n == 0 {
        lemma_unpacked_prefix(all, first, key, out, first.len() as int);
        assert(unpacked_archive(first, key, out, first.len() as int) + unpacked_archive(
            second,
            key,
            out,
            0,
        ) =~= unpacked_archive(first, key, out, first.len() as int));
    } else {
        lemma_unpacked_concat(first, second, key, out, n - 1);
        assert(all[first.len() + n - 1] == second[n - 1]);
        assert(unpacked_archive(all, key, out, first.len() + n) =~= unpacked_archive(
            first,
            key,
            out,
            first.len() as int,
        ) + unpacked_archive(second, key, out, n));
    }
}

/// What the first containers unpack to depends on those containers alone.
pub proof fn lemma_unpacked_prefix(
    all: Seq<Container>,
    part: Seq<Container>,
    key: Seq<u8>,
    out: Seq<char>,
    n: int,
)
    requires
        0 <= n <= part.len() <= all.len(),
        forall|k: int| 0 <= k < part.len() ==> all[k] == part[k],
    ensures
        unpacked_archive(all, key, out, n) == unpacked_archive(part, key, out, n),
    decreases n,
{
    if n > 0 {
        lemma_unpacked_prefix(all, part, key, out, n - 1);
    }
}

/// The containers of an archive all open with `key`, and each holds what
/// its header lists: the archive can be unpacked.
pub open spec fn can_unpack(archive: Seq<Container>, key: Seq<u8>) -> bool {
    forall|k: int|
        0 <= k < archive.len() ==> open_error((#[trigger] archive[k]).data@, key) is None
            && container_is_whole(archive[k].data@, key)
}

/// The containers of an archive may come in any order: whether it can be
/// unpacked, and which files with which contents come out, each how often,
/// is the same whichever part of the containers is taken first.
pub proof fn lemma_unpack_any_order(
    first: Seq<Container>,
    second: Seq<Container>,
    key: Seq<u8>,
    out: Seq<char>,
)
    ensures
        can_unpack(first + second, key) == can_unpack(second + first, key),
        unpacked_archive(
            first + second,
            key,
            out,
            (first + second).len() as int,
        ).to_multiset() == unpacked_archive(
            second + first,
            key,
            out,
            (second + first).len() as int,
        ).to_multiset(),
{
    let one = unpacked_archive(first, key, out, first.len() as int);
    let two = unpacked_archive(second, key, out, second.len() as int);
    lemma_unpacked_concat(first, second, key, out, second.len() as int);
    lemma_unpacked_concat(second, first, key, out, first.len() as int);
    lemma_multiset_commutative(one, two);
    lemma_multiset_commutative(two, one);
    assert(one.to_multiset().add(two.to_multiset()) =~= two.to_multiset().add(one.to_multiset()));
    if can_unpack(first + second, key) {
        lemma_can_unpack_parts(first, second, key);
        lemma_can_unpack_whole(second, first, key);
    }
    if can_unpack(second + first, key) {
        lemma_can_unpack_parts(second, first, key);
        lemma_can_unpack_whole(first, second, key);
    }
}

/// Where an archive can be unpacked, so can each part of it.
pub proof fn lemma_can_unpack_parts(first: Seq<Container>, second: Seq<Container>, key: Seq<u8>)
    requires
        can_unpack(first + second, key),
    ensures
        can_unpack(first, key),
        can_unpack(second, key),
{
    let all = first + second;
    assert forall|k: int| 0 <= k < first.len() implies open_error(
        (#[trigger] first[k]).data@,
        key,
    ) is None && container_is_whole(first[k].data@, key) by {
        assert(all[k] == first[k]);
    }
    assert forall|k: int| 0 <= k < second.len() implies open_error(
        (#[trigger] second[k]).data@,
        key,
    ) is None && container_is_whole(second[k].data@, key) by {
        assert(all[first.len() + k] == second[k]);
    }
}

/// Where two archives can be unpacked, so can the two as one.
pub proof fn lemma_can_unpack_whole(first: Seq<Container>, second: Seq<Container>, key: Seq<u8>)
    requires
        can_unpack(first, key),
        can_unpack(second, key),
    ensures
        can_unpack(first + second, key),
{
    let all = first + second;
    assert forall|k: int| 0 <= k < all.len() implies open_error(
        (#[trigger] all[k]).data@,
        key,
    ) is None && container_is_whole(all[k].data@, key) by {
        if k < first.len() {
            assert(all[k] == first[k]);
        } else {
            assert(all[k] == second[k - first.len()]);
        }
    }
}

} // verus!
