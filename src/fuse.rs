use vstd::prelude::*;

use crate::reconcile::reconciled;
use crate::vfs::{
    attr_of, file_name, lemma_attr_ino, KubeFileAttr, KubeFileType, KubeVirtualFs, ObjectInfo,
    VfsError,
};

verus! {

/// One entry of a directory listing, as handed to the kernel.
#[derive(Debug)]
pub struct DirEntry {
    pub ino: u64,
    /// The offset at which a later listing resumes after this entry.
    pub offset: u64,
    pub kind: KubeFileType,
    pub name: String,
}

/// How many entries a listing of `n` entries from `off` holds when at most
/// `cap` fit.
pub open spec fn page_len(n: int, off: int, cap: int) -> int {
    if off >= n {
        0
    } else if n - off < cap {
        n - off
    } else {
        cap
    }
}

/// The indices that successive listings visit, starting at `off`, each
/// resuming at the offset the previous one ended with.
pub open spec fn listing(n: nat, off: nat, cap: nat) -> Seq<int>
    decreases n - off,
{
    if off >= n || cap == 0 {
        seq![]
    } else {
        Seq::new(page_len(n as int, off as int, cap as int) as nat, |i: int| off + i) + listing(
            n,
            (off + page_len(n as int, off as int, cap as int)) as nat,
            cap,
        )
    }
}

proof fn lemma_listing_from(n: nat, off: nat, cap: nat)
    requires
        cap > 0,
        off <= n,
    ensures
        listing(n, off, cap) == Seq::new((n - off) as nat, |i: int| off + i),
    decreases n - off,
{
    if off < n {
        let p = page_len(n as int, off as int, cap as int);
        lemma_listing_from(n, (off + p) as nat, cap);
        assert(listing(n, off, cap) =~= Seq::new((n - off) as nat, |i: int| off + i));
    } else {
        assert(listing(n, off, cap) =~= Seq::new((n - off) as nat, |i: int| off + i));
    }
}

/// Listing a directory of `n` entries from offset zero, with room for `cap`
/// entries per call and each call resuming at the offset the last one ended
/// with, visits every entry exactly once and in order; a call at offset `n`
/// yields nothing.
pub proof fn lemma_pagination_complete(n: nat, cap: nat)
    requires
        cap > 0,
    ensures
        listing(n, 0, cap) == Seq::new(n, |i: int| i),
        page_len(n as int, n as int, cap as int) == 0,
{
    lemma_listing_from(n, 0, cap);
    assert(Seq::new((n - 0) as nat, |i: int| 0 + i) =~= Seq::new(n, |i: int| i));
}

/// The entries of a listing from `offset` that fit in `capacity`; each
/// carries the offset at which the next call resumes.
pub fn readdir_page(entries: &Vec<(String, KubeFileAttr)>, offset: u64, capacity: usize) -> (r: Vec<
    DirEntry,
>)
    ensures
        r@.len() == page_len(entries@.len() as int, offset as int, capacity as int),
        forall|i: int|
            0 <= i < r@.len() ==> {
                let e = #[trigger] entries@[offset + i];
                &&& r@[i].ino == e.1.ino
                &&& r@[i].offset == offset + i + 1
                &&& r@[i].kind == e.1.kind
                &&& r@[i].name@ == e.0@
            },
{
    let mut out: Vec<DirEntry> = Vec::new();
    if offset >= entries.len() as u64 {
        return out;
    }
    let start = offset as usize;
    let mut i: usize = start;
    while i < entries.len() && out.len() < capacity
        invariant
            start == offset,
            start <= i <= entries.len(),
            out@.len() == i - start,
            out@.len() <= capacity,
            forall|k: int|
                0 <= k < out@.len() ==> {
                    let e = #[trigger] entries@[offset + k];
                    &&& out@[k].ino == e.1.ino
                    &&& out@[k].offset == offset + k + 1
                    &&& out@[k].kind == e.1.kind
                    &&& out@[k].name@ == e.0@
                },
        decreases entries.len() - i,
    {
        let (name, attr) = &entries[i];
        out.push(
            DirEntry { ino: attr.ino, offset: (i + 1) as u64, kind: attr.kind, name: name.clone() },
        );
        i = i + 1;
    }
    out
}

/// The bytes of `content` from `offset` on, at most `size` of them; none
/// where `offset` lies at or past the end.
pub fn read_range(content: &Vec<u8>, offset: u64, size: u64) -> (r: Vec<u8>)
    ensures
        offset >= content@.len() ==> r@.len() == 0,
        offset < content@.len() ==> r@ == content@.subrange(
            offset as int,
            if content@.len() - offset < size {
                content@.len() as int
            } else {
                offset + size
            },
        ),
{
    let mut out: Vec<u8> = Vec::new();
    let len = content.len();
    if offset >= len as u64 {
        return out;
    }
    let start = offset as usize;
    let end: usize = if ((len - start) as u64) < size {
        len
    } else {
        start + size as usize
    };
    let mut i: usize = start;
    while i < end
        invariant
            start <= i <= end,
            end <= len,
            len == content@.len(),
            out@ == content@.subrange(start as int, i as int),
        decreases end - i,
    {
        out.push(content[i]);
        assert(content@.subrange(start as int, i + 1) =~= content@.subrange(
            start as int,
            i as int,
        ).push(content@[i as int]));
        i = i + 1;
    }
    out
}

/// Lists the directory `inode` from `offset`, at most `capacity` entries,
/// after reconciling it with what the cluster listed for it.
pub fn readdir(
    vfs: &mut KubeVirtualFs,
    inode: u64,
    offset: u64,
    capacity: usize,
    fetched: &Vec<ObjectInfo>,
) -> (r: Result<Vec<DirEntry>, VfsError>)
    requires
        old(vfs).wf(),
    ensures
        final(vfs).wf(),
        final(vfs).apis() == old(vfs).apis(),
        old(vfs).sync_plan(inode, fetched@) is None ==> final(vfs).tree() == old(vfs).tree(),
        old(vfs).sync_plan(inode, fetched@) matches Some(Err(_)) ==> final(vfs).tree() == old(
            vfs,
        ).tree(),
        old(vfs).sync_plan(inode, fetched@) matches Some(Ok(ds)) ==> final(vfs).has_inode(inode)
            && reconciled(old(vfs).tree(), final(vfs).tree(), inode, ds),
        !old(vfs).has_inode(inode) ==> r == Err::<Vec<DirEntry>, VfsError>(VfsError::NotFound),
        old(vfs).sync_plan(inode, fetched@) matches Some(Err(e)) ==> r == Err::<
            Vec<DirEntry>,
            VfsError,
        >(e),
        old(vfs).sync_plan(inode, fetched@) matches Some(Ok(_)) ==> r is Ok,
        r is Ok ==> r->Ok_0@.len() == page_len(
            final(vfs).tree().children_of(inode).len() as int,
            offset as int,
            capacity as int,
        ),
        r is Ok ==> forall|i: int|
            0 <= i < r->Ok_0@.len() ==> {
                let c = final(vfs).tree().children_of(inode)[offset + i];
                &&& (#[trigger] r->Ok_0@[i]).ino == c
                &&& r->Ok_0@[i].offset == offset + i + 1
                &&& r->Ok_0@[i].name@ == file_name(final(vfs).payload(c))
                &&& r->Ok_0@[i].kind == attr_of(c, final(vfs).payload(c)).kind
            },
{
    let entries = match vfs.list_files_two(inode, fetched) {
        Ok(e) => e,
        Err(e) => {
            return Err(e);
        },
    };
    let page = readdir_page(&entries, offset, capacity);
    proof {
        assert forall|i: int| 0 <= i < page@.len() implies {
            let c = vfs.tree().children_of(inode)[offset + i];
            &&& (#[trigger] page@[i]).ino == c
            &&& page@[i].offset == offset + i + 1
            &&& page@[i].name@ == file_name(vfs.payload(c))
            &&& page@[i].kind == attr_of(c, vfs.payload(c)).kind
        } by {
            let c = vfs.tree().children_of(inode)[offset + i];
            let e = entries@[offset + i];
            assert(e.1 == attr_of(c, vfs.tree()@[c].payload@));
            lemma_attr_ino(c, vfs.tree()@[c].payload@);
        }
    }
    Ok(page)
}

} // verus!
