//! An archive: one container or several, read as one.

pub mod sub_archive;

use vstd::prelude::*;
use crate::archive::sub_archive::{entry_payload, first_match, header_paths};
use crate::archive::sub_archive::{file_views, open_error, source_text, texts, unpacked, within};
use crate::archive::sub_archive::{FileView, SubArchive, UnpackedFile};
use crate::crypto::Key;
use crate::error::Error;
use crate::group::reversed;
use crate::header::format::{sources_size, SourceRecord};
use crate::stream::{count_after, ByteStream};

verus! {

/// The bytes of one container, under the name of its file.
#[derive(Debug)]
pub struct Container {
    pub name: String,
    pub data: Vec<u8>,
}

/// One container of an archive, opened.
pub struct OpenContainer {
    name: String,
    size: u64,
    archive: SubArchive,
}

impl OpenContainer {
    /// The name that the container came under.
    pub closed spec fn name(&self) -> Seq<char> {
        self.name@
    }

    /// The number of bytes of the container.
    pub closed spec fn size(&self) -> nat {
        self.size as nat
    }

    /// The container, opened.
    pub closed spec fn archive(&self) -> SubArchive {
        self.archive
    }

    /// The container is that of `container`, opened with `key`.
    pub open spec fn opened_from(&self, container: Container, key: Seq<u8>) -> bool {
        &&& open_error(container.data@, key) is None
        &&& self.name() == container.name@
        &&& self.size() == container.data@.len()
        &&& self.archive().wf()
        &&& self.archive().opened_from(container.data@, key)
    }

    /// The name that the container came under.
    pub fn get_name(&self) -> (name: &str)
        ensures
            name@ == self.name(),
    {
        self.name.as_str()
    }

    /// The number of bytes of the container.
    pub fn get_size(&self) -> (size: u64)
        ensures
            size == self.size(),
    {
        self.size
    }

    /// The container, opened.
    pub fn get_archive(&self) -> (archive: &SubArchive)
        ensures
            *archive == self.archive(),
    {
        &self.archive
    }
}

/// The texts without those that came before: each once, where it comes
/// first.
pub open spec fn unique_texts(all: Seq<Seq<char>>) -> Seq<Seq<char>>
    decreases all.len(),
{
    if all.len() == 0 {
        Seq::empty()
    } else {
        let before = unique_texts(all.drop_last());
        if before.contains(all.last()) {
            before
        } else {
            before.push(all.last())
        }
    }
}

/// Whether one of `texts` is `text`.
fn holds_text(list: &Vec<String>, text: &str) -> (found: bool)
    ensures
        found == texts(list@).contains(text@),
{
    let mut i: usize = 0;
    while i < list.len()
        invariant
            0 <= i <= list@.len(),
            forall|k: int| 0 <= k < i ==> texts(list@)[k] != text@,
        decreases list@.len() - i,
    {
        match crate::bytes::order_text(list[i].as_str(), text) {
            crate::bytes::Order::Equal => {
                assert(texts(list@)[i as int] == text@);
                return true;
            },
            _ => {},
        }
        i = i + 1;
    }
    false
}

/// Drops every text that came before: each stays once, where it came
/// first.
pub fn unique(all: Vec<String>) -> (kept: Vec<String>)
    ensures
        texts(kept@) == unique_texts(texts(all@)),
{
    let ghost goal = texts(all@);
    let mut kept: Vec<String> = Vec::new();
    let mut i: usize = 0;
    proof {
        assert(goal.take(0) =~= Seq::<Seq<char>>::empty());
        assert(texts(kept@) =~= Seq::<Seq<char>>::empty());
    }
    while i < all.len()
        invariant
            0 <= i <= all@.len(),
            goal == texts(all@),
            texts(kept@) == unique_texts(goal.take(i as int)),
        decreases all@.len() - i,
    {
        proof {
            assert(goal.take(i as int + 1).drop_last() =~= goal.take(i as int));
            assert(goal.take(i as int + 1).last() == all@[i as int]@);
        }
        if !holds_text(&kept, all[i].as_str()) {
            let text = all[i].clone();
            assert(texts(kept@.push(text)) =~= texts(kept@).push(text@));
            kept.push(text);
        }
        i = i + 1;
    }
    assert(goal.take(i as int) =~= goal);
    kept
}

/// The ids of the sources of a header.
pub open spec fn source_ids(sources: Seq<SourceRecord>) -> Seq<Seq<char>> {
    sources.map_values(|s: SourceRecord| s.id)
}

/// The ids of the sources of the first `n` containers, container by
/// container, each as often as it occurs.
pub open spec fn ids_upto(containers: Seq<OpenContainer>, n: int) -> Seq<Seq<char>>
    decreases n,
{
    if n <= 0 {
        Seq::empty()
    } else {
        ids_upto(containers, n - 1) + source_ids(containers[n - 1].archive().header()@.sources)
    }
}

/// The relative paths of the entries of the first `n` containers.
pub open spec fn paths_upto(containers: Seq<OpenContainer>, n: int) -> Seq<Seq<char>>
    decreases n,
{
    if n <= 0 {
        Seq::empty()
    } else {
        let sources = containers[n - 1].archive().header()@.sources;
        paths_upto(containers, n - 1) + header_paths(sources, sources.len() as int)
    }
}

/// The files that the first `n` containers unpack to.
pub open spec fn unpacked_upto(containers: Seq<OpenContainer>, out: Seq<char>, n: int) -> Seq<
    FileView,
>
    decreases n,
{
    if n <= 0 {
        Seq::empty()
    } else {
        unpacked_upto(containers, out, n - 1) + unpacked(
            containers[n - 1].archive().header()@,
            containers[n - 1].archive().payload(),
            out,
        )
    }
}

/// The container holds an entry that is asked for.
pub open spec fn holds_match(container: OpenContainer, source: Option<Seq<char>>, path: Seq<char>) -> bool {
    exists|i: int, j: int| #[trigger] first_match(container.archive().header()@, source, path, i, j)
}

/// The container holds an entry that is asked for, but ends before the
/// first such entry does.
pub open spec fn match_is_cut(container: OpenContainer, source: Option<Seq<char>>, path: Seq<char>) -> bool {
    exists|i: int, j: int|
        #[trigger] first_match(container.archive().header()@, source, path, i, j) && !within(
            container.archive().header()@,
            container.archive().payload().len() as int,
            i,
            j,
        )
}

/// The payload of the container holds all that its header lists.
pub open spec fn is_whole(container: OpenContainer) -> bool {
    sources_size(container.archive().header()@.sources) <= container.archive().payload().len()
}

/// One container or several, opened and read as one.
pub struct Archive {
    containers: Vec<OpenContainer>,
}

impl Archive {
    /// The containers, in the order in which they were given.
    pub closed spec fn containers(&self) -> Seq<OpenContainer> {
        self.containers@
    }

    /// Every container is well-formed.
    pub open spec fn wf(&self) -> bool {
        forall|k: int|
            0 <= k < self.containers().len() ==> (#[trigger] self.containers()[k]).archive().wf()
    }

    /// Since `other`, nothing was read from any container but container `k`.
    pub open spec fn read_from_none_but(&self, other: &Self, k: int) -> bool {
        forall|c: int|
            0 <= c < self.containers().len() && c != k ==> (
            #[trigger] self.containers()[c]).archive().bytes_read()
                == other.containers()[c].archive().bytes_read()
    }

    /// `self` is `other` but for the positions of the readers.
    pub open spec fn same_archive(&self, other: &Self) -> bool {
        &&& self.containers().len() == other.containers().len()
        &&& forall|k: int|
            0 <= k < self.containers().len() ==> (#[trigger] self.containers()[k]).archive().same_container(
                &other.containers()[k].archive(),
            )
    }

    /// Opens every container with `key`. Fails with the error of the first
    /// container that cannot be opened.
    pub fn new(containers: Vec<Container>, key: Key) -> (result: Result<Self, Error>)
        ensures
            match result {
                Ok(archive) => {
                    &&& archive.wf()
                    &&& archive.containers().len() == containers@.len()
                    &&& forall|k: int|
                        0 <= k < containers@.len() ==> (#[trigger] archive.containers()[k]).opened_from(
                            containers@[k],
                            key@,
                        )
                },
                Err(e) => exists|k: int|
                    0 <= k < containers@.len() && #[trigger] open_error(containers@[k].data@, key@)
                        == Some(e) && forall|c: int|
                        0 <= c < k ==> #[trigger] open_error(containers@[c].data@, key@) is None,
            },
    {
        let mut rest = reversed(containers);
        let mut opened: Vec<OpenContainer> = Vec::new();
        let ghost mut done: int = 0;
        proof {
            assert(containers@.reverse().reverse() =~= containers@);
            assert(containers@.skip(0) =~= containers@);
        }
        while rest.len() > 0
            invariant
                0 <= done <= containers@.len(),
                rest@.reverse() == containers@.skip(done),
                opened@.len() == done,
                forall|k: int|
                    0 <= k < done ==> (#[trigger] opened@[k]).opened_from(containers@[k], key@),
            decreases rest@.len(),
        {
            let ghost back = rest@;
            match rest.pop() {
                Some(container) => {
                    proof {
                        assert(back.reverse().len() == back.len());
                        assert(back.reverse()[0] == back.last());
                        assert(containers@.skip(done)[0] == containers@[done]);
                        assert(back.drop_last().reverse() =~= back.reverse().skip(1));
                        assert(containers@.skip(done).skip(1) =~= containers@.skip(done + 1));
                    }
                    let size = container.data.len() as u64;
                    let stream = ByteStream::new(container.data);
                    assert(stream.remaining() =~= container.data@);
                    match SubArchive::new(stream, key) {
                        Ok(archive) => {
                            opened.push(OpenContainer { name: container.name, size, archive });
                        },
                        Err(e) => {
                            proof {
                                assert(open_error(containers@[done].data@, key@) == Some(e));
                                assert forall|c: int| 0 <= c < done implies #[trigger] open_error(
                                    containers@[c].data@,
                                    key@,
                                ) is None by {
                                    assert(opened@[c].opened_from(containers@[c], key@));
                                }
                            }
                            return Err(e);
                        },
                    }
                    proof {
                        done = done + 1;
                    }
                },
                None => vstd::pervasive::unreached(),
            }
        }
        Ok(Archive { containers: opened })
    }

    /// The number of containers.
    pub fn len(&self) -> (len: usize)
        ensures
            len == self.containers().len(),
    {
        self.containers.len()
    }

    /// The container at `index`.
    pub fn get(&self, index: usize) -> (container: &OpenContainer)
        requires
            index < self.containers().len(),
        ensures
            *container == self.containers()[index as int],
    {
        &self.containers[index]
    }

    /// The ids of all sources of all containers, container by container in
    /// the order of the headers. An id that several containers hold comes as
    /// often.
    pub fn sources(&self) -> (ids: Vec<String>)
        ensures
            texts(ids@) == ids_upto(self.containers(), self.containers().len() as int),
    {
        let mut ids: Vec<String> = Vec::new();
        let mut k: usize = 0;
        assert(texts(ids@) =~= ids_upto(self.containers(), 0));
        while k < self.containers.len()
            invariant
                0 <= k <= self.containers().len(),
                texts(ids@) == ids_upto(self.containers(), k as int),
            decreases self.containers().len() - k,
        {
            let ghost before = texts(ids@);
            let mut more = self.containers[k].archive.sources();
            assert(texts(more@) =~= source_ids(self.containers()[k as int].archive().header()@.sources));
            ids.append(&mut more);
            assert(texts(ids@) =~= before + source_ids(
                self.containers()[k as int].archive().header()@.sources,
            ));
            k = k + 1;
        }
        ids
    }

    /// The ids of the sources of the archive, each once: the sources of all
    /// containers are one set.
    pub fn unique_sources(&self) -> (ids: Vec<String>)
        ensures
            texts(ids@) == unique_texts(
                ids_upto(self.containers(), self.containers().len() as int),
            ),
    {
        unique(self.sources())
    }

    /// Hands every entry of every container to `callback`, as the id of its
    /// source and its relative path, in the order of `file_paths`.
    pub fn for_each_file(&self, callback: impl Fn(&str, &str))
        requires
            forall|source: &str, path: &str| call_requires(callback, (source, path)),
    {
        let mut k: usize = 0;
        while k < self.containers.len()
            invariant
                0 <= k <= self.containers().len(),
                forall|source: &str, path: &str| call_requires(callback, (source, path)),
            decreases self.containers().len() - k,
        {
            let groups = self.containers[k].archive.get_header().entries();
            let mut i: usize = 0;
            while i < groups.len()
                invariant
                    0 <= i <= groups@.len(),
                    forall|source: &str, path: &str| call_requires(callback, (source, path)),
                decreases groups@.len() - i,
            {
                let group = &groups[i];
                let mut j: usize = 0;
                while j < group.entries.len()
                    invariant
                        0 <= j <= group.entries@.len(),
                        forall|source: &str, path: &str| call_requires(callback, (source, path)),
                    decreases group.entries@.len() - j,
                {
                    callback(group.id.as_str(), group.entries[j].path.as_str());
                    j = j + 1;
                }
                i = i + 1;
            }
            k = k + 1;
        }
    }

    /// The relative paths of the entries of the archive, each once.
    pub fn unique_file_paths(&self) -> (paths: Vec<String>)
        ensures
            texts(paths@) == unique_texts(
                paths_upto(self.containers(), self.containers().len() as int),
            ),
    {
        unique(self.file_paths())
    }

    /// The relative path of every entry of every container.
    pub fn file_paths(&self) -> (paths: Vec<String>)
        ensures
            texts(paths@) == paths_upto(self.containers(), self.containers().len() as int),
    {
        let mut paths: Vec<String> = Vec::new();
        let mut k: usize = 0;
        assert(texts(paths@) =~= paths_upto(self.containers(), 0));
        while k < self.containers.len()
            invariant
                0 <= k <= self.containers().len(),
                texts(paths@) == paths_upto(self.containers(), k as int),
            decreases self.containers().len() - k,
        {
            let ghost before = texts(paths@);
            let mut more = self.containers[k].archive.file_paths();
            let ghost added = texts(more@);
            paths.append(&mut more);
            assert(texts(paths@) =~= before + added);
            k = k + 1;
        }
        paths
    }

    /// Reads every entry of every container and says where it goes below
    /// `out`. Fails where the payload of a container is shorter than the
    /// sizes in its header add up to.
    pub fn unpack(&mut self, out: &str) -> (result: Result<Vec<UnpackedFile>, Error>)
        requires
            old(self).wf(),
        ensures
            final(self).wf(),
            final(self).same_archive(old(self)),
            match result {
                Ok(files) => {
                    &&& forall|k: int|
                        0 <= k < old(self).containers().len() ==> is_whole(
                            #[trigger] old(self).containers()[k],
                        )
                    &&& file_views(files@) == unpacked_upto(
                        old(self).containers(),
                        out@,
                        old(self).containers().len() as int,
                    )
                },
                Err(e) => {
                    &&& e == Error::UnexpectedEof || e == Error::InvalidSeek
                    &&& exists|k: int|
                        0 <= k < old(self).containers().len() && !is_whole(
                            #[trigger] old(self).containers()[k],
                        ) && forall|c: int|
                            0 <= c < k ==> is_whole(#[trigger] old(self).containers()[c])
                },
            },
    {
        let mut files: Vec<UnpackedFile> = Vec::new();
        let mut k: usize = 0;
        assert(file_views(files@) =~= unpacked_upto(self.containers(), out@, 0));
        while k < self.containers.len()
            invariant
                self.wf(),
                self.same_archive(old(self)),
                0 <= k <= self.containers().len(),
                forall|c: int| 0 <= c < k ==> is_whole(#[trigger] old(self).containers()[c]),
                file_views(files@) == unpacked_upto(old(self).containers(), out@, k as int),
            decreases self.containers().len() - k,
        {
            let ghost before = file_views(files@);
            let ghost held = self.containers();
            let result = self.containers[k].archive.unpack(out);
            proof {
                assert forall|c: int| 0 <= c < self.containers().len() implies (
                #[trigger] self.containers()[c]).archive().wf() && self.containers()[c].archive().same_container(
                    &old(self).containers()[c].archive(),
                ) by {
                    if c != k {
                        assert(self.containers()[c] == held[c]);
                    }
                    assert(held[c].archive().same_container(&old(self).containers()[c].archive()));
                }
            }
            match result {
                Ok(mut more) => {
                    let ghost added = file_views(more@);
                    files.append(&mut more);
                    assert(file_views(files@) =~= before + added);
                },
                Err(e) => {
                    assert(!is_whole(old(self).containers()[k as int]));
                    return Err(e);
                },
            }
            k = k + 1;
        }
        Ok(files)
    }

    /// Reads the first entry that has `path`, in the source `source` where
    /// one is given, from the first container that holds one: the bytes of
    /// that entry are read from that container, and nothing else from any.
    /// Fails, reading nothing, with `NotFound` where no container holds such
    /// an entry, and where the container ends before the entry does.
    pub fn get_file(&mut self, source: Option<&str>, path: &str) -> (result: Result<Vec<u8>, Error>)
        requires
            old(self).wf(),
        ensures
            final(self).wf(),
            final(self).same_archive(old(self)),
            match result {
                Ok(contents) => exists|k: int, i: int, j: int|
                    {
                        &&& 0 <= k < old(self).containers().len()
                        &&& forall|c: int|
                            0 <= c < k ==> !holds_match(
                                #[trigger] old(self).containers()[c],
                                source_text(source),
                                path@,
                            )
                        &&& #[trigger] first_match(
                            old(self).containers()[k].archive().header()@,
                            source_text(source),
                            path@,
                            i,
                            j,
                        )
                        &&& contents@ == entry_payload(
                            old(self).containers()[k].archive().header()@,
                            old(self).containers()[k].archive().payload(),
                            i,
                            j,
                        )
                        &&& final(self).containers()[k].archive().bytes_read() == count_after(
                            old(self).containers()[k].archive().bytes_read(),
                            contents@.len(),
                        )
                        &&& final(self).read_from_none_but(old(self), k)
                    },
                Err(e) => final(self).read_from_none_but(old(self), -1) && if e
                    == Error::NotFound {
                    forall|c: int|
                        0 <= c < old(self).containers().len() ==> !holds_match(
                            #[trigger] old(self).containers()[c],
                            source_text(source),
                            path@,
                        )
                } else {
                    &&& e == Error::UnexpectedEof || e == Error::InvalidSeek
                    &&& exists|k: int|
                        0 <= k < old(self).containers().len() && #[trigger] match_is_cut(
                            old(self).containers()[k],
                            source_text(source),
                            path@,
                        ) && forall|c: int|
                            0 <= c < k ==> !holds_match(
                                #[trigger] old(self).containers()[c],
                                source_text(source),
                                path@,
                            )
                },
            },
    {
        let mut k: usize = 0;
        while k < self.containers.len()
            invariant
                self.wf(),
                self.same_archive(old(self)),
                self.read_from_none_but(old(self), -1),
                0 <= k <= self.containers().len(),
                forall|c: int|
                    0 <= c < k ==> !holds_match(
                        #[trigger] old(self).containers()[c],
                        source_text(source),
                        path@,
                    ),
            decreases self.containers().len() - k,
        {
            let ghost held = self.containers();
            let result = self.containers[k].archive.get_file(source, path);
            proof {
                assert forall|c: int|
                    0 <= c < self.containers().len() && c != k implies (
                #[trigger] self.containers()[c]).archive().bytes_read()
                    == old(self).containers()[c].archive().bytes_read() by {
                    assert(self.containers()[c] == held[c]);
                    assert(held[c].archive().bytes_read()
                        == old(self).containers()[c].archive().bytes_read());
                }
                assert(held[k as int].archive().bytes_read()
                    == old(self).containers()[k as int].archive().bytes_read());
                assert forall|c: int| 0 <= c < self.containers().len() implies (
                #[trigger] self.containers()[c]).archive().wf() && self.containers()[c].archive().same_container(
                    &old(self).containers()[c].archive(),
                ) by {
                    if c != k {
                        assert(self.containers()[c] == held[c]);
                    }
                    assert(held[c].archive().same_container(&old(self).containers()[c].archive()));
                }
            }
            match result {
                Ok(Some(contents)) => {
                    return Ok(contents);
                },
                Ok(None) => {
                    assert(!holds_match(
                        old(self).containers()[k as int],
                        source_text(source),
                        path@,
                    ));
                },
                Err(e) => {
                    assert(match_is_cut(
                        old(self).containers()[k as int],
                        source_text(source),
                        path@,
                    ));
                    return Err(e);
                },
            }
            k = k + 1;
        }
        Err(Error::NotFound)
    }
}

} // verus!
