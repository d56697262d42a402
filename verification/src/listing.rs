use vstd::prelude::*;
use crate::entry::{
    enrich, entry_matches, raw_name, raw_ok, raw_visible, DirectoryEntry, EntryKind, Error,
    RawEntry,
};

verus! {

/// The response envelope: the directory records and the file records of one
/// call, each in order.
#[derive(Debug)]
pub struct FilesResult {
    pub directories: Vec<DirectoryEntry>,
    pub files: Vec<DirectoryEntry>,
}

/// The directory records of `s`, in their relative order.
pub open spec fn dirs_of(s: Seq<DirectoryEntry>) -> Seq<DirectoryEntry>
    decreases s.len(),
{
    if s.len() == 0 {
        Seq::empty()
    } else {
        let rest = dirs_of(s.drop_last());
        if s.last().kind == EntryKind::Directory {
            rest.push(s.last())
        } else {
            rest
        }
    }
}

/// The file records of `s`, in their relative order.
pub open spec fn files_of(s: Seq<DirectoryEntry>) -> Seq<DirectoryEntry>
    decreases s.len(),
{
    if s.len() == 0 {
        Seq::empty()
    } else {
        let rest = files_of(s.drop_last());
        if s.last().kind == EntryKind::File {
            rest.push(s.last())
        } else {
            rest
        }
    }
}

/// The raw entries whose names are decodable and not hidden, in order.
pub open spec fn visible_raw(s: Seq<RawEntry>) -> Seq<RawEntry>
    decreases s.len(),
{
    if s.len() == 0 {
        Seq::empty()
    } else {
        let rest = visible_raw(s.drop_last());
        if raw_visible(s.last()) {
            rest.push(s.last())
        } else {
            rest
        }
    }
}

/// The raw entries that are directories, in order.
pub open spec fn raw_dirs(s: Seq<RawEntry>) -> Seq<RawEntry>
    decreases s.len(),
{
    if s.len() == 0 {
        Seq::empty()
    } else {
        let rest = raw_dirs(s.drop_last());
        if s.last().is_dir {
            rest.push(s.last())
        } else {
            rest
        }
    }
}

/// The raw entries that are plain files, in order.
pub open spec fn raw_files(s: Seq<RawEntry>) -> Seq<RawEntry>
    decreases s.len(),
{
    if s.len() == 0 {
        Seq::empty()
    } else {
        let rest = raw_files(s.drop_last());
        if !s.last().is_dir {
            rest.push(s.last())
        } else {
            rest
        }
    }
}

/// Some entry's name is not decodable.
pub open spec fn any_undecodable(s: Seq<RawEntry>) -> bool {
    exists|i: int| 0 <= i < s.len() && s[i].name is None
}

/// The metadata of every entry of `s` can be rendered in full.
pub open spec fn all_ok(s: Seq<RawEntry>) -> bool {
    forall|i: int| 0 <= i < s.len() ==> raw_ok(s[i])
}

/// The records `es` are, one for one and in order, what the enricher derives
/// from the raw entries `cs`.
pub open spec fn entries_match(es: Seq<DirectoryEntry>, cs: Seq<RawEntry>) -> bool {
    es.len() == cs.len() && forall|i: int| 0 <= i < cs.len() ==> entry_matches(es[i], cs[i])
}

/// The result `fr` is the listing of the children `children`: its two buckets
/// are the visible directories and the visible files, in input order,
/// enriched.
pub open spec fn listing_matches(fr: FilesResult, children: Seq<RawEntry>) -> bool {
    &&& entries_match(fr.directories@, raw_dirs(visible_raw(children)))
    &&& entries_match(fr.files@, raw_files(visible_raw(children)))
}

/// The name is decodable and not dot-prefixed.
pub(crate) fn is_visible_raw(c: &RawEntry) -> (b: bool)
    ensures
        b == raw_visible(*c),
{
    match &c.name {
        None => false,
        Some(n) => {
            let len = n.as_str().unicode_len();
            if len == 0 {
                false
            } else {
                n.as_str().get_char(0) != '.'
            }
        },
    }
}

/// The result aggregator: partition an ordered sequence of records into
/// directories and files, preserving the relative order of the input; no
/// sorting, filtering, or deduplication.
pub fn partition_entries(entries: Vec<DirectoryEntry>) -> (r: FilesResult)
    ensures
        r.directories@ == dirs_of(entries@),
        r.files@ == files_of(entries@),
{
    let ghost orig = entries@;
    let mut entries = entries;
    let n0 = entries.len();
    let mut directories: Vec<DirectoryEntry> = Vec::new();
    let mut files: Vec<DirectoryEntry> = Vec::new();
    let mut i: usize = 0;
    proof {
        assert(orig.skip(0) =~= orig);
    }
    while entries.len() > 0
        invariant
            n0 == orig.len(),
            i + entries@.len() == orig.len(),
            entries@ == orig.skip(i as int),
            directories@ == dirs_of(orig.take(i as int)),
            files@ == files_of(orig.take(i as int)),
        decreases entries@.len(),
    {
        let e = entries.remove(0);
        proof {
            assert(e == orig[i as int]);
            assert(orig.skip(i as int).remove(0) =~= orig.skip(i + 1));
            assert(orig.take(i + 1).drop_last() =~= orig.take(i as int));
            assert(orig.take(i + 1).last() == orig[i as int]);
        }
        if e.kind == EntryKind::Directory {
            directories.push(e);
        } else {
            files.push(e);
        }
        i += 1;
    }
    proof {
        assert(orig.take(i as int) =~= orig);
    }
    FilesResult { directories, files }
}

/// Law: the aggregator loses nothing and invents nothing — the two buckets
/// together hold exactly one record per input record.
pub proof fn lemma_partition_complete(es: Seq<DirectoryEntry>)
    ensures
        dirs_of(es).len() + files_of(es).len() == es.len(),
    decreases es.len(),
{
    if es.len() == 0 {
    } else {
        lemma_partition_complete(es.drop_last());
    }
}

/// A visible entry of `s` is an element of `visible_raw(s)`.
proof fn lemma_visible_raw_contains(s: Seq<RawEntry>, k: int)
    requires
        0 <= k < s.len(),
        raw_visible(s[k]),
    ensures
        visible_raw(s).contains(s[k]),
    decreases s.len(),
{
    if k == s.len() - 1 {
        assert(visible_raw(s) == visible_raw(s.drop_last()).push(s.last()));
        assert(visible_raw(s).last() == s[k]);
    } else {
        lemma_visible_raw_contains(s.drop_last(), k);
        assert(s.drop_last()[k] == s[k]);
        let rest = visible_raw(s.drop_last());
        let w = choose|w: int| 0 <= w < rest.len() && rest[w] == s[k];
        if raw_visible(s.last()) {
            assert(visible_raw(s)[w] == s[k]);
        }
    }
}

/// The directory scanner: build the listing of the immediate children of a
/// directory, as the filesystem reported them and in that order. Entries
/// whose names carry the hidden (dot) prefix are skipped; an undecodable name
/// anywhere rejects the whole call; a timestamp that cannot be rendered on a
/// visible entry rejects the whole call with an IO error; no partial result
/// is ever returned.
pub fn list_directory(children: Vec<RawEntry>) -> (r: Result<FilesResult, Error>)
    ensures
        any_undecodable(children@) ==> r == Err::<FilesResult, Error>(Error::UndecodableName),
        !any_undecodable(children@) ==> {
            &&& (r is Ok <==> all_ok(visible_raw(children@)))
            &&& (r matches Err(e) ==> e == Error::Io)
            &&& (r matches Ok(fr) ==> listing_matches(fr, children@))
        },
{
    let n = children.len();
    let mut i: usize = 0;
    while i < n
        invariant
            n == children@.len(),
            i <= n,
            forall|k: int| 0 <= k < i ==> children@[k].name is Some,
        decreases n - i,
    {
        if children[i].name.is_none() {
            return Err(Error::UndecodableName);
        }
        i += 1;
    }
    let mut out: Vec<DirectoryEntry> = Vec::new();
    let mut j: usize = 0;
    proof {
        assert(children@.take(0) =~= Seq::<RawEntry>::empty());
    }
    while j < n
        invariant
            n == children@.len(),
            j <= n,
            forall|k: int| 0 <= k < n ==> children@[k].name is Some,
            all_ok(visible_raw(children@.take(j as int))),
            entries_match(out@, visible_raw(children@.take(j as int))),
        decreases n - j,
    {
        let c = &children[j];
        proof {
            assert(children@.take(j + 1).drop_last() =~= children@.take(j as int));
            assert(children@.take(j + 1).last() == children@[j as int]);
        }
        if is_visible_raw(c) {
            match enrich(c) {
                Ok(e) => {
                    out.push(e);
                },
                Err(_) => {
                    proof {
                        lemma_visible_raw_contains(children@, j as int);
                        let w = choose|w: int|
                            0 <= w < visible_raw(children@).len() && visible_raw(children@)[w]
                                == children@[j as int];
                        assert(!raw_ok(visible_raw(children@)[w]));
                    }
                    return Err(Error::Io);
                },
            }
        }
        j += 1;
    }
    proof {
        assert(children@.take(n as int) =~= children@);
    }
    let fr = partition_entries(out);
    proof {
        lemma_partition_aligns(out@, visible_raw(children@));
    }
    Ok(fr)
}

/// Splitting aligned sequences keeps them aligned: if the records `es` match
/// the raw entries `cs` one for one, the directory records match the raw
/// directories and the file records match the raw files.
proof fn lemma_partition_aligns(es: Seq<DirectoryEntry>, cs: Seq<RawEntry>)
    requires
        entries_match(es, cs),
    ensures
        entries_match(dirs_of(es), raw_dirs(cs)),
        entries_match(files_of(es), raw_files(cs)),
    decreases cs.len(),
{
    if cs.len() == 0 {
    } else {
        assert(entries_match(es.drop_last(), cs.drop_last()));
        lemma_partition_aligns(es.drop_last(), cs.drop_last());
        assert(entry_matches(es.last(), cs.last()));
    }
}

/// Every entry kept by `visible_raw` is visible.
pub open spec fn all_visible(s: Seq<RawEntry>) -> bool {
    forall|i: int| 0 <= i < s.len() ==> raw_visible(#[trigger] s[i])
}

proof fn lemma_visible_raw_visible(s: Seq<RawEntry>)
    ensures
        all_visible(visible_raw(s)),
    decreases s.len(),
{
    if s.len() == 0 {
    } else {
        lemma_visible_raw_visible(s.drop_last());
    }
}

proof fn lemma_raw_split_facts(s: Seq<RawEntry>)
    ensures
        raw_dirs(s).len() + raw_files(s).len() == s.len(),
        forall|i: int| 0 <= i < raw_dirs(s).len() ==> (#[trigger] raw_dirs(s)[i]).is_dir,
        forall|i: int| 0 <= i < raw_files(s).len() ==> !(#[trigger] raw_files(s)[i]).is_dir,
        all_visible(s) ==> all_visible(raw_dirs(s)),
        all_visible(s) ==> all_visible(raw_files(s)),
    decreases s.len(),
{
    if s.len() == 0 {
    } else {
        lemma_raw_split_facts(s.drop_last());
        if all_visible(s) {
            assert(all_visible(s.drop_last()));
        }
    }
}

/// Law: a successful listing holds exactly one record per visible child — as
/// many records as visible entries, none of them dot-prefixed, each in the
/// bucket of its kind.
pub proof fn lemma_listing_shape(fr: FilesResult, children: Seq<RawEntry>)
    requires
        listing_matches(fr, children),
    ensures
        fr.directories@.len() + fr.files@.len() == visible_raw(children).len(),
        forall|i: int|
            0 <= i < fr.directories@.len() ==> (#[trigger] fr.directories@[i]).name@.len() > 0
                && fr.directories@[i].name@[0] != '.' && fr.directories@[i].kind
                == EntryKind::Directory,
        forall|i: int|
            0 <= i < fr.files@.len() ==> (#[trigger] fr.files@[i]).name@.len() > 0
                && fr.files@[i].name@[0] != '.' && fr.files@[i].kind == EntryKind::File,
{
    let vis = visible_raw(children);
    lemma_visible_raw_visible(children);
    lemma_raw_split_facts(vis);
    assert forall|i: int|
        0 <= i < fr.directories@.len() implies (#[trigger] fr.directories@[i]).name@.len() > 0
        && fr.directories@[i].name@[0] != '.' && fr.directories@[i].kind
        == EntryKind::Directory by {
        assert(entry_matches(fr.directories@[i], raw_dirs(vis)[i]));
        assert(raw_visible(raw_dirs(vis)[i]));
    }
    assert forall|i: int|
        0 <= i < fr.files@.len() implies (#[trigger] fr.files@[i]).name@.len() > 0
        && fr.files@[i].name@[0] != '.' && fr.files@[i].kind == EntryKind::File by {
        assert(entry_matches(fr.files@[i], raw_files(vis)[i]));
        assert(raw_visible(raw_files(vis)[i]));
    }
}

/// Law: a record of directory kind always reports size 0, in any sequence of
/// records derived from raw entries.
pub proof fn lemma_dir_size_zero(es: Seq<DirectoryEntry>, cs: Seq<RawEntry>)
    requires
        entries_match(es, cs),
    ensures
        forall|i: int|
            0 <= i < es.len() && (#[trigger] es[i]).kind == EntryKind::Directory ==> es[i].size_bytes
                == 0,
{
    assert forall|i: int|
        0 <= i < es.len() && (#[trigger] es[i]).kind == EntryKind::Directory implies es[i].size_bytes
        == 0 by {
        assert(entry_matches(es[i], cs[i]));
    }
}

/// The two records carry the same content in every field.
pub open spec fn entry_equiv(a: DirectoryEntry, b: DirectoryEntry) -> bool {
    &&& a.name@ == b.name@
    &&& a.path@ == b.path@
    &&& a.kind == b.kind
    &&& a.mime_type@ == b.mime_type@
    &&& a.size_bytes == b.size_bytes
    &&& a.created_at@ == b.created_at@
    &&& a.modified_at@ == b.modified_at@
    &&& a.accessed_at@ == b.accessed_at@
}

/// The two sequences carry identical ordered content.
pub open spec fn entries_equiv(a: Seq<DirectoryEntry>, b: Seq<DirectoryEntry>) -> bool {
    a.len() == b.len() && forall|i: int| 0 <= i < a.len() ==> entry_equiv(#[trigger] a[i], b[i])
}

/// Law: listing the same children twice gives identical ordered content —
/// the listing is a function of what the filesystem reported.
pub proof fn lemma_listing_deterministic(
    fr1: FilesResult,
    fr2: FilesResult,
    children: Seq<RawEntry>,
)
    requires
        listing_matches(fr1, children),
        listing_matches(fr2, children),
    ensures
        entries_equiv(fr1.directories@, fr2.directories@),
        entries_equiv(fr1.files@, fr2.files@),
{
    let dirs = raw_dirs(visible_raw(children));
    let files = raw_files(visible_raw(children));
    assert forall|i: int|
        0 <= i < fr1.directories@.len() implies entry_equiv(
        #[trigger] fr1.directories@[i],
        fr2.directories@[i],
    ) by {
        assert(entry_matches(fr1.directories@[i], dirs[i]));
        assert(entry_matches(fr2.directories@[i], dirs[i]));
    }
    assert forall|i: int|
        0 <= i < fr1.files@.len() implies entry_equiv(
        #[trigger] fr1.files@[i],
        fr2.files@[i],
    ) by {
        assert(entry_matches(fr1.files@[i], files[i]));
        assert(entry_matches(fr2.files@[i], files[i]));
    }
}

} // verus!
