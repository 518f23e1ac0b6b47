//! Unpacking an archive in one call.

use vstd::prelude::*;
use crate::archive::sub_archive::{container_header, container_payload, file_views, open_error};
use crate::archive::sub_archive::{unpacked, FileView, UnpackedFile};
use crate::archive::{is_whole, unpacked_upto, Archive, Container, OpenContainer};
use crate::crypto::Key;
use crate::error::Error;
use crate::header::format::sources_size;

verus! {

/// The files that the first `n` containers unpack to when they are opened
/// with `key`.
pub open spec fn unpacked_archive(archive: Seq<Container>, key: Seq<u8>, out: Seq<char>, n: int) -> Seq<
    FileView,
>
    decreases n,
{
    if n <= 0 {
        Seq::empty()
    } else {
        unpacked_archive(archive, key, out, n - 1) + unpacked(
            container_header(archive[n - 1].data@, key),
            container_payload(archive[n - 1].data@, key),
            out,
        )
    }
}

/// The payload of the container holds all that its header lists.
pub open spec fn container_is_whole(bytes: Seq<u8>, key: Seq<u8>) -> bool {
    sources_size(container_header(bytes, key).sources) <= container_payload(bytes, key).len()
}

/// What opened containers unpack to is what their bytes unpack to.
pub proof fn lemma_unpacked_opened(
    opened: Seq<OpenContainer>,
    archive: Seq<Container>,
    key: Seq<u8>,
    out: Seq<char>,
    n: int,
)
    requires
        0 <= n <= opened.len(),
        opened.len() == archive.len(),
        forall|k: int| 0 <= k < opened.len() ==> (#[trigger] opened[k]).opened_from(archive[k], key),
    ensures
        unpacked_upto(opened, out, n) == unpacked_archive(archive, key, out, n),
    decreases n,
{
    if n > 0 {
        lemma_unpacked_opened(opened, archive, key, out, n - 1);
        assert(opened[n - 1].opened_from(archive[n - 1], key));
        opened[n - 1].archive().lemma_opened_from(archive[n - 1].data@, key);
    }
}

/// Opens the containers of an archive with `key`, reads every entry and says
/// where it goes below `out`: the files of the containers in their order,
/// those of each in the order of its header. Fails with the error of the
/// first container that cannot be opened, and where the payload of one is
/// shorter than the sizes in its header add up to.
pub fn unpack(archive: Vec<Container>, out: &str, key: Key) -> (result: Result<
    Vec<UnpackedFile>,
    Error,
>)
    ensures
        match result {
            Ok(files) => {
                &&& forall|k: int|
                    0 <= k < archive@.len() ==> #[trigger] open_error(archive@[k].data@, key@) is None
                &&& forall|k: int|
                    0 <= k < archive@.len() ==> #[trigger] container_is_whole(
                        archive@[k].data@,
                        key@,
                    )
                &&& file_views(files@) == unpacked_archive(
                    archive@,
                    key@,
                    out@,
                    archive@.len() as int,
                )
            },
            Err(e) => {
                ||| exists|k: int|
                    0 <= k < archive@.len() && #[trigger] open_error(archive@[k].data@, key@)
                        == Some(e) && forall|c: int|
                        0 <= c < k ==> #[trigger] open_error(archive@[c].data@, key@) is None
                ||| {
                    &&& e == Error::UnexpectedEof || e == Error::InvalidSeek
                    &&& forall|k: int|
                        0 <= k < archive@.len() ==> #[trigger] open_error(archive@[k].data@, key@) is None
                    &&& exists|k: int|
                        0 <= k < archive@.len() && !#[trigger] container_is_whole(
                            archive@[k].data@,
                            key@,
                        ) && forall|c: int|
                            0 <= c < k ==> #[trigger] container_is_whole(archive@[c].data@, key@)
                }
            },
        },
{
    let mut opened = match Archive::new(archive, key) {
        Ok(opened) => opened,
        Err(e) => {
            return Err(e);
        },
    };
    let ghost containers = opened.containers();
    proof {
        assert forall|k: int| 0 <= k < archive@.len() implies #[trigger] open_error(
            archive@[k].data@,
            key@,
        ) is None && (is_whole(containers[k]) <==> container_is_whole(archive@[k].data@, key@)) by {
            assert(containers[k].opened_from(archive@[k], key@));
            containers[k].archive().lemma_opened_from(archive@[k].data@, key@);
        }
        lemma_unpacked_opened(containers, archive@, key@, out@, archive@.len() as int);
    }
    let result = opened.unpack(out);
    proof {
        if result is Ok {
            assert forall|k: int| 0 <= k < archive@.len() implies #[trigger] container_is_whole(
                archive@[k].data@,
                key@,
            ) by {
                assert(is_whole(containers[k]));
            }
        } else {
            let k = choose|k: int|
                0 <= k < containers.len() && !is_whole(#[trigger] containers[k]) && forall|c: int|
                    0 <= c < k ==> is_whole(#[trigger] containers[c]);
            assert(!container_is_whole(archive@[k].data@, key@));
            assert forall|c: int| 0 <= c < k implies #[trigger] container_is_whole(
                archive@[c].data@,
                key@,
            ) by {
                assert(is_whole(containers[c]));
            }
        }
    }
    result
}

} // verus!
